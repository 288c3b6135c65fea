//! Where the rows of a tile file lie, and what patching some of them does.
use crate::bytes;
use crate::dmlist;
use crate::dmlist::TiledCubeModel;
use crate::tilepatch;
use crate::tilepatch::{ElementSize, GeometryModel, TileRowModel};
use vstd::prelude::*;

verus! {

/// The elements of a cell: the product of all dimensions of the cube but the
/// last, which counts the rows. A negative product counts as none.
pub open spec fn cell_elements(c: TiledCubeModel) -> int {
    let n = c.cube_shape.drop_last().fold_left(1int, |a: int, d: i64| a * d);
    if n < 0 {
        0
    } else {
        n
    }
}

/// The rows in a tile.
pub open spec fn tile_rows(c: TiledCubeModel) -> int {
    c.tile_shape[c.cube_shape.len() - 1] as int
}

/// The cube at `j` is the first with as many dimensions as the data.
pub open spec fn is_data_cube(g: GeometryModel, j: int) -> bool {
    &&& 0 <= j < g.cubes.len()
    &&& 0 < g.nrdim == g.cubes[j].cube_shape.len()
    &&& forall|i: int| 0 <= i < j ==> (#[trigger] g.cubes[i]).cube_shape.len() != g.nrdim
}

proof fn lemma_data_cube(g: GeometryModel, i: int, j: int)
    requires
        is_data_cube(g, j),
        0 <= i <= j,
    ensures
        tilepatch::data_cube(g, i) == Some(g.cubes[j]),
    decreases j - i,
{
    if i < j {
        assert(g.cubes[i].cube_shape.len() != g.nrdim);
        lemma_data_cube(g, i + 1, j);
    }
}

proof fn lemma_product(s: Seq<i64>, n: nat)
    requires
        n <= s.len(),
    ensures
        dmlist::dims_product(s, n) == s.take(n as int).fold_left(1int, |a: int, d: i64| a * d),
    decreases n,
{
    if n > 0 {
        lemma_product(s, (n - 1) as nat);
        assert(s.take(n as int).drop_last() =~= s.take(n - 1));
        assert(s.take(n as int).last() == s[n - 1]);
    }
}

/// The first byte of a row, for cells of whole bytes.
pub open spec fn row_start(c: TiledCubeModel, size: u32, row: int) -> int {
    let cell = cell_elements(c) * size;
    (row / tile_rows(c)) * (cell * tile_rows(c)) + (row % tile_rows(c)) * cell
}

/// The first bit of a row, for cells of bits. Every tile starts at a byte.
pub open spec fn row_bit(c: TiledCubeModel, row: int) -> int {
    8 * ((row / tile_rows(c)) * ((cell_elements(c) * tile_rows(c) + 7) / 8)) + (row % tile_rows(
        c,
    )) * cell_elements(c)
}

/// Rows `unit` apart in tiles of at least `rows` such units do not overlap.
proof fn lemma_apart(a: int, b: int, rows: int, unit: int, tile: int)
    requires
        0 <= a < b,
        rows > 0,
        unit >= 0,
        tile >= unit * rows,
    ensures
        (a / rows) * tile + (a % rows) * unit + unit <= (b / rows) * tile + (b % rows) * unit,
        0 <= (a / rows) * tile + (a % rows) * unit,
{
    let (p, q) = (a / rows, a % rows);
    let (x, y) = (b / rows, b % rows);
    vstd::arithmetic::div_mod::lemma_fundamental_div_mod(a, rows);
    vstd::arithmetic::div_mod::lemma_fundamental_div_mod(b, rows);
    vstd::arithmetic::div_mod::lemma_mod_bound(a, rows);
    vstd::arithmetic::div_mod::lemma_mod_bound(b, rows);
    vstd::arithmetic::div_mod::lemma_div_pos_is_pos(a, rows);
    vstd::arithmetic::div_mod::lemma_div_is_ordered(a, b, rows);
    assert(0 <= p * tile + q * unit) by (nonlinear_arith)
        requires
            0 <= p,
            0 <= q,
            unit >= 0,
            tile >= unit * rows,
            rows > 0,
    ;
    if p == x {
        assert(p * rows == rows * p && x * rows == rows * x);
        assert(q * unit + unit <= y * unit) by (nonlinear_arith)
            requires
                q < y,
                unit >= 0,
        ;
    } else {
        assert(q * unit + unit <= tile) by (nonlinear_arith)
            requires
                q < rows,
                unit >= 0,
                tile >= unit * rows,
        ;
        assert(p * tile + tile <= x * tile && 0 <= y * unit) by (nonlinear_arith)
            requires
                p < x,
                0 <= y,
                unit >= 0,
                tile >= unit * rows,
                rows > 0,
        ;
    }
}

/// The places that a cube gives, in plain numbers.
proof fn lemma_places(c: TiledCubeModel, size: ElementSize)
    requires
        c.cube_shape.len() > 0,
        tilepatch::places(c, size) is Some,
    ensures
        ({
            let p = tilepatch::places(c, size)->0;
            &&& p.rows_per_tile == tile_rows(c) > 0
            &&& p.cell_elements == cell_elements(c) >= 0
            &&& c.tile_shape.len() >= c.cube_shape.len()
            &&& match size {
                ElementSize::Bytes(b) => p.tile_bytes == cell_elements(c) * b * tile_rows(c),
                ElementSize::Bits => p.tile_bytes == (cell_elements(c) * tile_rows(c) + 7) / 8,
            }
        }),
{
    let n = c.cube_shape.len();
    lemma_product(c.cube_shape, (n - 1) as nat);
    assert(c.cube_shape.take(n - 1) =~= c.cube_shape.drop_last());
    if let ElementSize::Bytes(b) = size {
        let (x, y, z) = (cell_elements(c), tile_rows(c), b as int);
        assert(x * y * z == x * z * y) by (nonlinear_arith);
    }
}

/// Every cell is as long as the geometry says.
pub open spec fn whole_cells(c: TiledCubeModel, size: u32, rows: Seq<TileRowModel>) -> bool {
    forall|i: int|
        0 <= i < rows.len() ==> (#[trigger] rows[i]).cell.len() == cell_elements(c) * size
}

/// The last entry for a row.
pub open spec fn last_for(rows: Seq<TileRowModel>, i: int, row: int) -> bool {
    &&& 0 <= i < rows.len()
    &&& rows[i].row == row
    &&& forall|j: int| i < j < rows.len() ==> (#[trigger] rows[j]).row != row
}

/// No entry for a row.
pub open spec fn none_for(rows: Seq<TileRowModel>, from: int, row: int) -> bool {
    forall|j: int| from <= j < rows.len() ==> (#[trigger] rows[j]).row != row
}

#[verifier::rlimit(40)]
proof fn lemma_rows_laid(
    tile: Seq<u8>,
    c: TiledCubeModel,
    size: u32,
    nrow: u64,
    rows: Seq<TileRowModel>,
    i: int,
    k: int,
    row: int,
)
    requires
        c.cube_shape.len() > 0,
        tilepatch::places(c, ElementSize::Bytes(size)) is Some,
        whole_cells(c, size, rows),
        0 <= i <= rows.len(),
        0 <= row,
        row_start(c, size, row) + cell_elements(c) * size <= tile.len(),
    ensures
        ({
            let p = tilepatch::places(c, ElementSize::Bytes(size))->0;
            let n = cell_elements(c) * size;
            let at = row_start(c, size, row);
            tilepatch::rows_laid(tile, p, ElementSize::Bytes(size), nrow, rows, i) matches Some(t)
                ==> {
                &&& t.len() == tile.len()
                &&& last_for(rows, k, row) && i <= k ==> t.subrange(at, at + n) == rows[k].cell
                &&& none_for(rows, i, row) ==> t.subrange(at, at + n) == tile.subrange(at, at + n)
            }
        }),
    decreases rows.len() - i,
{
    let p = tilepatch::places(c, ElementSize::Bytes(size))->0;
    let n = cell_elements(c) * size;
    let at = row_start(c, size, row);
    lemma_places(c, ElementSize::Bytes(size));
    if i < rows.len() && rows[i].row < nrow {
        if let Some(t) = tilepatch::row_laid(tile, p, ElementSize::Bytes(size), rows[i]) {
            let r = rows[i].row as int;
            assert(rows[i].cell.len() == n);
            lemma_rows_laid(t, c, size, nrow, rows, i + 1, k, row);
            assert(n >= 0) by (nonlinear_arith)
                requires
                    n == cell_elements(c) * size,
                    cell_elements(c) >= 0,
                    size >= 0,
            ;
            if r < row {
                lemma_apart(r, row, tile_rows(c), n, n * tile_rows(c));
            } else if row < r {
                lemma_apart(row, r, tile_rows(c), n, n * tile_rows(c));
            } else {
                lemma_apart(r, r + 1, tile_rows(c), n, n * tile_rows(c));
            }
            if r == row {
                assert(t.subrange(at, at + n) =~= rows[i].cell);
            } else {
                assert(t.subrange(at, at + n) =~= tile.subrange(at, at + n));
            }
        }
    }
}

/// Patching rows of whole bytes: a row that is written holds the cell that was
/// written to it last, and every other row of the file is as it was. A row
/// starts behind the tiles before its own and the rows before it in its tile.
pub proof fn law_rows_patched(
    tile: Seq<u8>,
    g: GeometryModel,
    nrow: u64,
    size: u32,
    rows: Seq<TileRowModel>,
    j: int,
    k: int,
    row: int,
)
    requires
        is_data_cube(g, j),
        whole_cells(g.cubes[j], size, rows),
        0 <= row,
        row_start(g.cubes[j], size, row) + cell_elements(g.cubes[j]) * size <= tile.len(),
    ensures
        tilepatch::patched(tile, g, nrow, ElementSize::Bytes(size), rows) matches Some(t) ==> {
            let n = cell_elements(g.cubes[j]) * size;
            let at = row_start(g.cubes[j], size, row);
            &&& t.len() == tile.len()
            &&& last_for(rows, k, row) ==> t.subrange(at, at + n) == rows[k].cell
            &&& none_for(rows, 0, row) ==> t.subrange(at, at + n) == tile.subrange(at, at + n)
        },
{
    lemma_data_cube(g, 0, j);
    if tilepatch::patched(tile, g, nrow, ElementSize::Bytes(size), rows) is Some {
        lemma_rows_laid(tile, g.cubes[j], size, nrow, rows, 0, k, row);
    }
}

/// Different rows of a tile file have places apart.
pub proof fn law_rows_apart(c: TiledCubeModel, size: u32, a: int, b: int)
    requires
        tile_rows(c) > 0,
        0 <= a < b,
    ensures
        0 <= row_start(c, size, a),
        row_start(c, size, a) + cell_elements(c) * size <= row_start(c, size, b),
        0 <= row_bit(c, a),
        row_bit(c, a) + cell_elements(c) <= row_bit(c, b),
{
    let n = cell_elements(c) * size;
    let e = cell_elements(c);
    let t = (e * tile_rows(c) + 7) / 8;
    assert(n >= 0) by (nonlinear_arith)
        requires
            n == e * size,
            e >= 0,
            size >= 0,
    ;
    lemma_apart(a, b, tile_rows(c), n, n * tile_rows(c));
    lemma_apart(a, b, tile_rows(c), e, 8 * t);
    let (p, q) = (a / tile_rows(c), b / tile_rows(c));
    assert(8 * (p * t) == p * (8 * t) && 8 * (q * t) == q * (8 * t)) by (nonlinear_arith);
}

#[verifier::rlimit(40)]
proof fn lemma_bits_laid(
    tile: Seq<u8>,
    c: TiledCubeModel,
    nrow: u64,
    rows: Seq<TileRowModel>,
    i: int,
    k: int,
    row: int,
    b: int,
)
    requires
        c.cube_shape.len() > 0,
        tilepatch::places(c, ElementSize::Bits) is Some,
        0 <= i <= rows.len(),
        0 <= row,
        0 <= b < cell_elements(c),
        row_bit(c, row) + b < 8 * tile.len(),
    ensures
        ({
            let p = tilepatch::places(c, ElementSize::Bits)->0;
            let at = row_bit(c, row) + b;
            tilepatch::rows_laid(tile, p, ElementSize::Bits, nrow, rows, i) matches Some(t) ==> {
                &&& t.len() == tile.len()
                &&& last_for(rows, k, row) && i <= k ==> tilepatch::cell_bit(t, at)
                    == tilepatch::cell_bit(rows[k].cell, b)
                &&& none_for(rows, i, row) ==> tilepatch::cell_bit(t, at) == tilepatch::cell_bit(
                    tile,
                    at,
                )
            }
        }),
    decreases rows.len() - i,
{
    let p = tilepatch::places(c, ElementSize::Bits)->0;
    let at = row_bit(c, row) + b;
    let e = cell_elements(c);
    lemma_places(c, ElementSize::Bits);
    if i < rows.len() && rows[i].row < nrow {
        if let Some(t) = tilepatch::row_laid(tile, p, ElementSize::Bits, rows[i]) {
            let r = rows[i].row as int;
            law_rows_apart(c, 1, r, r + 1);
            law_rows_apart(c, 1, row, row + 1);
            tilepatch::law_bits_laid(tile, row_bit(c, r), rows[i].cell, e as nat, at);
            lemma_bits_laid(t, c, nrow, rows, i + 1, k, row, b);
            if r < row {
                law_rows_apart(c, 1, r, row);
            } else if row < r {
                law_rows_apart(c, 1, row, r);
            }
        }
    }
}

/// Patching rows of bits: each bit of a row that is written is that of the cell
/// that was written to it last, and each bit of every other row is as it was.
pub proof fn law_bit_rows_patched(
    tile: Seq<u8>,
    g: GeometryModel,
    nrow: u64,
    rows: Seq<TileRowModel>,
    j: int,
    k: int,
    row: int,
    b: int,
)
    requires
        is_data_cube(g, j),
        0 <= row,
        0 <= b < cell_elements(g.cubes[j]),
        row_bit(g.cubes[j], row) + b < 8 * tile.len(),
    ensures
        tilepatch::patched(tile, g, nrow, ElementSize::Bits, rows) matches Some(t) ==> {
            let at = row_bit(g.cubes[j], row) + b;
            &&& t.len() == tile.len()
            &&& last_for(rows, k, row) ==> bytes::bit(t[at / 8], at % 8) == (b < 8
                * rows[k].cell.len() && bytes::bit(rows[k].cell[b / 8], b % 8))
            &&& none_for(rows, 0, row) ==> bytes::bit(t[at / 8], at % 8) == bytes::bit(
                tile[at / 8],
                at % 8,
            )
        },
{
    lemma_data_cube(g, 0, j);
    if tilepatch::patched(tile, g, nrow, ElementSize::Bits, rows) is Some {
        let c = g.cubes[j];
        lemma_bits_laid(tile, c, nrow, rows, 0, k, row, b);
        lemma_places(c, ElementSize::Bits);
        law_rows_apart(c, 1, row, row + 1);
    }
}

/// Which tile files can be patched: those of as many rows, with a cube of the
/// data, whose numbers are machine integers, and with room for every row that
/// is written.
pub proof fn law_patchable(
    tile: Seq<u8>,
    g: GeometryModel,
    nrow: u64,
    size: u32,
    rows: Seq<TileRowModel>,
    j: int,
)
    requires
        is_data_cube(g, j),
        whole_cells(g.cubes[j], size, rows),
        tilepatch::products_fit(g.cubes[j].cube_shape, (g.nrdim - 1) as nat),
        g.cubes[j].tile_shape.len() >= g.nrdim,
        tile_rows(g.cubes[j]) > 0,
        cell_elements(g.cubes[j]) * tile_rows(g.cubes[j]) <= u64::MAX,
        cell_elements(g.cubes[j]) * tile_rows(g.cubes[j]) * size <= u64::MAX,
    ensures
        tilepatch::patched(tile, g, nrow, ElementSize::Bytes(size), rows) is Some <==> g.nrrow
            == nrow && forall|i: int|
            0 <= i < rows.len() ==> (#[trigger] rows[i]).row < nrow && row_start(
                g.cubes[j],
                size,
                rows[i].row as int,
            ) + cell_elements(g.cubes[j]) * size <= tile.len(),
{
    let c = g.cubes[j];
    let n = c.cube_shape.len();
    lemma_data_cube(g, 0, j);
    lemma_product(c.cube_shape, (n - 1) as nat);
    assert(c.cube_shape.take(n - 1) =~= c.cube_shape.drop_last());
    assert(tilepatch::places(c, ElementSize::Bytes(size)) is Some);
    lemma_places(c, ElementSize::Bytes(size));
    lemma_laid(tile, c, size, nrow, rows, 0);
}

proof fn lemma_laid(
    tile: Seq<u8>,
    c: TiledCubeModel,
    size: u32,
    nrow: u64,
    rows: Seq<TileRowModel>,
    i: int,
)
    requires
        c.cube_shape.len() > 0,
        tilepatch::places(c, ElementSize::Bytes(size)) is Some,
        whole_cells(c, size, rows),
        0 <= i <= rows.len(),
    ensures
        tilepatch::rows_laid(
            tile,
            tilepatch::places(c, ElementSize::Bytes(size))->0,
            ElementSize::Bytes(size),
            nrow,
            rows,
            i,
        ) is Some <==> forall|k: int|
            i <= k < rows.len() ==> (#[trigger] rows[k]).row < nrow && row_start(
                c,
                size,
                rows[k].row as int,
            ) + cell_elements(c) * size <= tile.len(),
    decreases rows.len() - i,
{
    let p = tilepatch::places(c, ElementSize::Bytes(size))->0;
    lemma_places(c, ElementSize::Bytes(size));
    if i < rows.len() {
        assert(rows[i].cell.len() == cell_elements(c) * size);
        if rows[i].row < nrow {
            if let Some(t) = tilepatch::row_laid(tile, p, ElementSize::Bytes(size), rows[i]) {
                assert(t.len() == tile.len());
                lemma_laid(t, c, size, nrow, rows, i + 1);
            }
        }
    }
}

} // verus!
