//! Writing rows into an existing tile file without touching the others.
use crate::bytes;
use crate::dmlist::{dims_product, tiled_cubes, TiledCube, TiledCubeModel};
use vstd::prelude::*;

verus! {

/// What a tile file's header says of its geometry.
#[derive(Debug)]
pub struct TileGeometry {
    pub nrdim: u32,
    pub nrrow: u64,
    pub cubes: Vec<TiledCube>,
}

/// What a [`TileGeometry`] says.
pub struct GeometryModel {
    pub nrdim: u32,
    pub nrrow: u64,
    pub cubes: Seq<TiledCubeModel>,
}

impl View for TileGeometry {
    type V = GeometryModel;

    open spec fn view(&self) -> GeometryModel {
        GeometryModel {
            nrdim: self.nrdim,
            nrrow: self.nrrow,
            cubes: tiled_cubes(self.cubes@),
        }
    }
}

/// How the elements of a cell are stored.
#[derive(Debug, Clone, Copy, PartialEq, Eq)]
pub enum ElementSize {
    /// One bit each.
    Bits,
    /// This many bytes each.
    Bytes(u32),
}

/// An encoded row.
#[derive(Debug)]
pub struct TileRow {
    pub row: u64,
    pub cell: Vec<u8>,
}

/// What a [`TileRow`] holds.
pub struct TileRowModel {
    pub row: u64,
    pub cell: Seq<u8>,
}

impl View for TileRow {
    type V = TileRowModel;

    open spec fn view(&self) -> TileRowModel {
        TileRowModel { row: self.row, cell: self.cell@ }
    }
}

pub open spec fn row_models(s: Seq<TileRow>) -> Seq<TileRowModel> {
    s.map_values(|r: TileRow| r@)
}

/// The first cube, from `i` on, that has the dimensions of the data.
pub open spec fn data_cube(g: GeometryModel, i: int) -> Option<TiledCubeModel>
    decreases g.cubes.len() - i,
{
    if i < 0 || i >= g.cubes.len() {
        None
    } else if g.cubes[i].cube_shape.len() > 0 && g.cubes[i].cube_shape.len() == g.nrdim {
        Some(g.cubes[i])
    } else {
        data_cube(g, i + 1)
    }
}

/// The places of rows in a tile file: so many rows in a tile, so many
/// elements in a cell, so many bytes in a tile.
#[verifier::ext_equal]
pub struct Places {
    pub rows_per_tile: int,
    pub cell_elements: int,
    pub tile_bytes: int,
}

/// Whether the products of the first dimensions, up to `n` of them, are
/// machine integers.
pub open spec fn products_fit(s: Seq<i64>, n: nat) -> bool {
    forall|k: nat| k <= n ==> i64::MIN <= #[trigger] dims_product(s, k) <= i64::MAX
}

/// The places that a cube gives, for cells of elements of a size. There are
/// none where the tiles have no rows or the sizes are no machine integers.
pub open spec fn places(c: TiledCubeModel, size: ElementSize) -> Option<Places> {
    let n = c.cube_shape.len();
    let rows_per_tile = c.tile_shape[n - 1] as int;
    let product = dims_product(c.cube_shape, (n - 1) as nat);
    let cell_elements = if product < 0 {
        0
    } else {
        product
    };
    let units = match size {
        ElementSize::Bits => cell_elements * rows_per_tile,
        ElementSize::Bytes(b) => cell_elements * rows_per_tile * b,
    };
    if c.tile_shape.len() < n || rows_per_tile <= 0 || !products_fit(
        c.cube_shape,
        (n - 1) as nat,
    ) || cell_elements * rows_per_tile > u64::MAX || units > u64::MAX {
        None
    } else {
        let tile_bytes = if size is Bits {
            (units + 7) / 8
        } else {
            units
        };
        Some(Places { rows_per_tile, cell_elements, tile_bytes })
    }
}

/// A byte with bit `k` set to `v`.
pub open spec fn with_bit(b: u8, k: u8, v: bool) -> u8 {
    if v {
        b | (1u8 << k)
    } else {
        b & !(1u8 << k)
    }
}

/// Bytes with bit `g` set to `v`.
pub open spec fn bit_set(s: Seq<u8>, g: int, v: bool) -> Seq<u8> {
    s.update(g / 8, with_bit(s[g / 8], (g % 8) as u8, v))
}

/// Bit `k` of an encoded cell.
pub open spec fn cell_bit(cell: Seq<u8>, k: int) -> bool {
    0 <= k < 8 * cell.len() && bytes::bit(cell[k / 8], k % 8)
}

/// Bytes with the first `n` bits of a cell from bit `at` on.
pub open spec fn bits_laid(s: Seq<u8>, at: int, cell: Seq<u8>, n: nat) -> Seq<u8>
    decreases n,
{
    if n == 0 {
        s
    } else {
        bit_set(bits_laid(s, at, cell, (n - 1) as nat), at + n - 1, cell_bit(cell, n - 1))
    }
}

/// Bytes with a cell from byte `at` on.
pub open spec fn bytes_laid(s: Seq<u8>, at: int, cell: Seq<u8>) -> Seq<u8> {
    Seq::new(
        s.len(),
        |i: int|
            if at <= i < at + cell.len() {
                cell[i - at]
            } else {
                s[i]
            },
    )
}

/// A tile file with one row written, or nothing where the row does not lie
/// in it.
pub open spec fn row_laid(tile: Seq<u8>, p: Places, size: ElementSize, row: TileRowModel) -> Option<
    Seq<u8>,
> {
    let start = (row.row as int / p.rows_per_tile) * p.tile_bytes;
    let within = row.row as int % p.rows_per_tile;
    match size {
        ElementSize::Bits => {
            let at = 8 * start + within * p.cell_elements;
            if at + p.cell_elements > 8 * tile.len() {
                None
            } else {
                Some(bits_laid(tile, at, row.cell, p.cell_elements as nat))
            }
        },
        ElementSize::Bytes(_) => {
            let at = start + within * row.cell.len();
            if at + row.cell.len() > tile.len() {
                None
            } else {
                Some(bytes_laid(tile, at, row.cell))
            }
        },
    }
}

/// A tile file with the rows from `i` on written.
pub open spec fn rows_laid(
    tile: Seq<u8>,
    p: Places,
    size: ElementSize,
    nrow: u64,
    rows: Seq<TileRowModel>,
    i: int,
) -> Option<Seq<u8>>
    decreases rows.len() - i,
{
    if i < 0 || i >= rows.len() {
        Some(tile)
    } else if rows[i].row >= nrow {
        None
    } else {
        match row_laid(tile, p, size, rows[i]) {
            None => None,
            Some(t) => rows_laid(t, p, size, nrow, rows, i + 1),
        }
    }
}

/// A tile file with rows written in place, or nothing where it cannot be
/// patched: no cube of the data, other rows, or a row that does not lie in
/// it.
pub open spec fn patched(
    tile: Seq<u8>,
    g: GeometryModel,
    nrow: u64,
    size: ElementSize,
    rows: Seq<TileRowModel>,
) -> Option<Seq<u8>> {
    match data_cube(g, 0) {
        None => None,
        Some(c) => if g.nrrow != nrow {
            None
        } else {
            match places(c, size) {
                None => None,
                Some(p) => rows_laid(tile, p, size, nrow, rows, 0),
            }
        },
    }
}

pub proof fn lemma_with_bit(b: u8, k: u8, v: bool, j: u8)
    requires
        k < 8,
        j < 8,
    ensures
        bytes::bit(with_bit(b, k, v), j as int) == if j == k {
            v
        } else {
            bytes::bit(b, j as int)
        },
{
    assert(((b | (1u8 << k)) >> j) & 1u8 == 1u8 <==> (j == k || (b >> j) & 1u8 == 1u8))
        by (bit_vector)
        requires
            k < 8,
            j < 8,
    ;
    assert(((b & !(1u8 << k)) >> j) & 1u8 == 1u8 <==> (j != k && (b >> j) & 1u8 == 1u8))
        by (bit_vector)
        requires
            k < 8,
            j < 8,
    ;
}

/// A cell that is laid into a tile file stands there bit by bit, and every
/// other bit stays as it was.
pub proof fn law_bits_laid(s: Seq<u8>, at: int, cell: Seq<u8>, n: nat, g: int)
    requires
        0 <= at,
        at + n <= 8 * s.len(),
        0 <= g < 8 * s.len(),
    ensures
        bits_laid(s, at, cell, n).len() == s.len(),
        cell_bit(bits_laid(s, at, cell, n), g) == if at <= g < at + n {
            cell_bit(cell, g - at)
        } else {
            cell_bit(s, g)
        },
    decreases n,
{
    if n > 0 {
        let m = (n - 1) as nat;
        law_bits_laid(s, at, cell, m, g);
        let before = bits_laid(s, at, cell, m);
        let h = at + m;
        if g / 8 == h / 8 {
            lemma_with_bit(
                before[h / 8],
                (h % 8) as u8,
                cell_bit(cell, m as int),
                (g % 8) as u8,
            );
        }
    }
}

/// A row that is written in place stands where the file's geometry puts it,
/// and every other byte stays as it was.
pub proof fn law_bytes_laid(s: Seq<u8>, at: int, cell: Seq<u8>, i: int)
    requires
        0 <= at,
        at + cell.len() <= s.len(),
        0 <= i < s.len(),
    ensures
        bytes_laid(s, at, cell).len() == s.len(),
        bytes_laid(s, at, cell).subrange(at, at + cell.len()) == cell,
        !(at <= i < at + cell.len()) ==> bytes_laid(s, at, cell)[i] == s[i],
{
    assert(bytes_laid(s, at, cell).subrange(at, at + cell.len()) =~= cell);
}

proof fn lemma_laid_len(s: Seq<u8>, at: int, cell: Seq<u8>, n: nat)
    requires
        0 <= at,
        at + n <= 8 * s.len(),
    ensures
        bits_laid(s, at, cell, n).len() == s.len(),
    decreases n,
{
    if n > 0 {
        lemma_laid_len(s, at, cell, (n - 1) as nat);
    }
}

fn lay_bits(tile: &mut Vec<u8>, start: usize, at: u64, cell: &Vec<u8>, n: u64)
    requires
        8 * start + at + n <= 8 * old(tile)@.len(),
    ensures
        final(tile)@ == bits_laid(old(tile)@, 8 * start + at, cell@, n as nat),
{
    let ghost s = tile@;
    let mut k: u64 = 0;
    while k < n
        invariant
            k <= n,
            8 * start + at + n <= 8 * s.len(),
            tile@.len() == s.len(),
            tile@ == bits_laid(s, 8 * start + at, cell@, k as nat),
        decreases n - k,
    {
        assert(at + k < 8 * (s.len() - start));
        let total: u64 = tile.len() as u64;
        let v: bool = k / 8 < cell.len() as u64 && (cell[(k / 8) as usize] >> ((k % 8) as u8)) & 1u8
            == 1u8;
        assert(v == cell_bit(cell@, k as int));
        let a: u64 = at / 8 + k / 8;
        let b: u64 = at % 8 + k % 8;
        let i: usize = start + (a + b / 8) as usize;
        let j: u8 = (b % 8) as u8;
        let ghost g = 8 * start + at + k;
        assert(g / 8 == i && g % 8 == j as int);
        let old_byte: u8 = tile[i];
        if v {
            tile.set(i, old_byte | (1u8 << j));
        } else {
            tile.set(i, old_byte & !(1u8 << j));
        }
        proof {
            lemma_laid_len(s, 8 * start + at, cell@, k as nat);
        }
        k = k + 1;
    }
}

fn lay_bytes(tile: &mut Vec<u8>, at: usize, cell: &Vec<u8>)
    requires
        at + cell@.len() <= old(tile)@.len(),
    ensures
        final(tile)@ == bytes_laid(old(tile)@, at as int, cell@),
{
    let ghost s = tile@;
    let len: usize = tile.len();
    let mut i: usize = 0;
    while i < cell.len()
        invariant
            i <= cell@.len(),
            len == s.len(),
            at + cell@.len() <= s.len(),
            tile@.len() == s.len(),
            forall|k: int|
                0 <= k < s.len() ==> #[trigger] tile@[k] == if at <= k < at + i {
                    cell@[k - at]
                } else {
                    s[k]
                },
        decreases cell@.len() - i,
    {
        tile.set(at + i, cell[i]);
        i = i + 1;
    }
    assert(tile@ =~= bytes_laid(s, at as int, cell@));
}

fn find_cube(g: &TileGeometry) -> (r: Option<usize>)
    ensures
        match r {
            Some(i) => i < g.cubes@.len() && data_cube(g@, 0) == Some(g.cubes@[i as int]@)
                && g.cubes@[i as int]@.cube_shape.len() > 0,
            None => data_cube(g@, 0) is None,
        },
{
    let mut i: usize = 0;
    while i < g.cubes.len()
        invariant
            i <= g.cubes@.len(),
            data_cube(g@, 0) == data_cube(g@, i as int),
        decreases g.cubes@.len() - i,
    {
        assert(g@.cubes[i as int] == g.cubes@[i as int]@);
        let n: usize = g.cubes[i].cube_shape.len();
        if n > 0 && n as u64 == g.nrdim as u64 {
            return Some(i);
        }
        i = i + 1;
    }
    None
}

/// The number of elements of a cell, where the products of its dimensions
/// are machine integers.
fn cell_elements(s: &Vec<i64>, n: usize) -> (r: Option<u64>)
    requires
        n <= s@.len(),
    ensures
        match r {
            Some(p) => products_fit(s@, n as nat) && p <= i64::MAX && p == if dims_product(
                s@,
                n as nat,
            ) < 0 {
                0
            } else {
                dims_product(s@, n as nat)
            },
            None => !products_fit(s@, n as nat),
        },
{
    let mut p: i64 = 1;
    let mut i: usize = 0;
    while i < n
        invariant
            i <= n <= s@.len(),
            p == dims_product(s@, i as nat),
            products_fit(s@, i as nat),
        decreases n - i,
    {
        let d: i64 = s[i];
        assert(i128::MIN <= p as i128 * d as i128 <= i128::MAX) by (nonlinear_arith)
            requires
                -0x8000_0000_0000_0000 <= p <= 0x7fff_ffff_ffff_ffff,
                -0x8000_0000_0000_0000 <= d <= 0x7fff_ffff_ffff_ffff,
        ;
        let q: i128 = p as i128 * d as i128;
        assert(q == dims_product(s@, (i + 1) as nat));
        if q > 0x7fff_ffff_ffff_ffff || q < -0x8000_0000_0000_0000 {
            return None;
        }
        p = q as i64;
        i = i + 1;
    }
    if p < 0 {
        Some(0)
    } else {
        Some(p as u64)
    }
}

/// Write encoded rows into a tile file in place. Gives nothing where the
/// file cannot be patched so.
pub fn patch_tiles(
    tile: &[u8],
    geometry: &TileGeometry,
    nrow: u64,
    size: ElementSize,
    rows: &[TileRow],
) -> (r: Option<Vec<u8>>)
    ensures
        match patched(tile@, geometry@, nrow, size, row_models(rows@)) {
            Some(t) => r matches Some(v) && v@ == t,
            None => r is None,
        },
{
    let c = match find_cube(geometry) {
        None => {
            return None;
        },
        Some(i) => &geometry.cubes[i],
    };
    if geometry.nrrow != nrow {
        return None;
    }
    let (per, elements, tile_bytes) = match places_of(c, size) {
        None => {
            return None;
        },
        Some(p) => p,
    };
    let ghost p = places(c@, size)->0;
    let mut out = vstd::slice::slice_to_vec(tile);
    let ghost ms = row_models(rows@);
    let mut i: usize = 0;
    while i < rows.len()
        invariant
            i <= rows@.len(),
            ms == row_models(rows@),
            p.rows_per_tile == per,
            p.cell_elements == elements,
            p.tile_bytes == tile_bytes,
            0 < per,
            elements * per <= u64::MAX,
            rows_laid(tile@, p, size, nrow, ms, 0) == rows_laid(
                out@,
                p,
                size,
                nrow,
                ms,
                i as int,
            ),
            patched(tile@, geometry@, nrow, size, ms) == rows_laid(tile@, p, size, nrow, ms, 0),
        decreases rows@.len() - i,
    {
        assert(ms[i as int] == rows@[i as int]@);
        let row: u64 = rows[i].row;
        if row >= nrow {
            return None;
        }
        let len: u64 = out.len() as u64;
        let number: u64 = row / per;
        let within: u64 = row % per;
        assert(number as u128 * tile_bytes as u128 <= u64::MAX as u128 * u64::MAX as u128)
            by (nonlinear_arith)
            requires
                number <= u64::MAX,
                tile_bytes <= u64::MAX,
        ;
        let start: u128 = number as u128 * tile_bytes as u128;
        if start > len as u128 {
            proof {
                lemma_no_row(out@, p, size, ms[i as int]);
            }
            return None;
        }
        match size {
            ElementSize::Bits => {
                assert(within * elements <= elements * per) by (nonlinear_arith)
                    requires
                        within <= per,
                ;
                let at: u64 = within * elements;
                if 8 * start + at as u128 + elements as u128 > 8 * len as u128 {
                    return None;
                }
                let ghost before = out@;
                lay_bits(&mut out, start as usize, at, &rows[i].cell, elements);
                assert(row_laid(before, p, size, ms[i as int]) == Some(out@));
            },
            ElementSize::Bytes(_) => {
                let clen: u64 = rows[i].cell.len() as u64;
                assert(within as u128 * clen as u128 <= u64::MAX as u128 * u64::MAX as u128)
                    by (nonlinear_arith)
                    requires
                        within <= u64::MAX,
                        clen <= u64::MAX,
                ;
                let at: u128 = start + within as u128 * clen as u128;
                if at + clen as u128 > len as u128 {
                    return None;
                }
                let ghost before = out@;
                lay_bytes(&mut out, at as usize, &rows[i].cell);
                assert(row_laid(before, p, size, ms[i as int]) == Some(out@));
            },
        }
        i = i + 1;
    }
    Some(out)
}

/// The rows in a tile, the elements in a cell and the bytes in a tile.
fn places_of(c: &TiledCube, size: ElementSize) -> (r: Option<(u64, u64, u64)>)
    requires
        c@.cube_shape.len() > 0,
    ensures
        match places(c@, size) {
            Some(p) => r matches Some((per, elements, tile_bytes)) && per == p.rows_per_tile
                && elements == p.cell_elements && tile_bytes == p.tile_bytes && 0 < per && elements
                * per <= u64::MAX,
            None => r is None,
        },
{
    let n: usize = c.cube_shape.len();
    if c.tile_shape.len() < n {
        return None;
    }
    let per: i64 = c.tile_shape[n - 1];
    if per <= 0 {
        return None;
    }
    let per: u64 = per as u64;
    let elements: u64 = match cell_elements(&c.cube_shape, n - 1) {
        None => {
            return None;
        },
        Some(p) => p,
    };
    assert(elements as u128 * per as u128 <= u64::MAX as u128 * u64::MAX as u128)
        by (nonlinear_arith)
        requires
            elements <= u64::MAX,
            per <= u64::MAX,
    ;
    let cells: u128 = elements as u128 * per as u128;
    if cells > 0xffff_ffff_ffff_ffff {
        return None;
    }
    match size {
        ElementSize::Bits => Some((per, elements, ((cells + 7) / 8) as u64)),
        ElementSize::Bytes(b) => {
            assert(cells * b as u128 <= u64::MAX as u128 * u64::MAX as u128) by (nonlinear_arith)
                requires
                    cells <= u64::MAX,
                    b <= u64::MAX,
            ;
            let total: u128 = cells * b as u128;
            if total > 0xffff_ffff_ffff_ffff {
                return None;
            }
            Some((per, elements, total as u64))
        },
    }
}

proof fn lemma_no_row(tile: Seq<u8>, p: Places, size: ElementSize, row: TileRowModel)
    requires
        p.rows_per_tile > 0,
        p.cell_elements >= 0,
        (row.row as int / p.rows_per_tile) * p.tile_bytes > tile.len(),
    ensures
        row_laid(tile, p, size, row) is None,
{
    let within = row.row as int % p.rows_per_tile;
    assert(within >= 0);
    assert(within * p.cell_elements >= 0) by (nonlinear_arith)
        requires
            within >= 0,
            p.cell_elements >= 0,
    ;
    assert(within * row.cell.len() >= 0) by (nonlinear_arith)
        requires
            within >= 0,
    ;
}

} // verus!
