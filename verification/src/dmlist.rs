//! Listing the data managers of a table with their layouts and columns.
use crate::bytes;
use crate::bytes::to_pattern64;
use crate::columnset;
use crate::columnset::{
    BlobModel, ColumnInfo, DataManager, DataManagerBlob, InfoModel, ManagerModel,
};
use crate::dminfo;
use crate::dminfo::{CubeModel, DmInfo, DmInfoModel, DmSpec, DmSpecModel, TsmHypercube};
use crate::ism;
use crate::ism::IsmFile;
use crate::ssm;
use crate::ssm::StandardStManFile;
use crate::table::{
    StorageError, StorageFault, TableDat, TableDatError, TableDatFault, TableDatModel,
};
use crate::tableread;
use crate::tableread::{find_file, tiled, ManagerFile, ManagerFileModel};
use crate::text;
use crate::text::{bytes_of, push_u64, text_eq};
use vstd::prelude::*;

verus! {

/// What the header of a tiled data manager says.
#[derive(Debug)]
pub struct TiledHeader {
    /// The data manager's sequence number in the table.
    pub manager: u32,
    pub hypercolumn_name: String,
    pub seq_nr: u32,
    /// The size in bytes of an element of the first data type.
    pub elem_size: u64,
    pub subclass_shape: Vec<i64>,
    pub cubes: Vec<TiledCube>,
}

/// One hypercube of a tiled data manager.
#[derive(Debug)]
pub struct TiledCube {
    pub cube_shape: Vec<i64>,
    pub tile_shape: Vec<i64>,
}

/// What a [`TiledCube`] says.
#[verifier::ext_equal]
pub struct TiledCubeModel {
    pub cube_shape: Seq<i64>,
    pub tile_shape: Seq<i64>,
}

impl View for TiledCube {
    type V = TiledCubeModel;

    open spec fn view(&self) -> TiledCubeModel {
        TiledCubeModel { cube_shape: self.cube_shape@, tile_shape: self.tile_shape@ }
    }
}

/// What a [`TiledHeader`] says.
pub struct TiledModel {
    pub manager: u32,
    pub hypercolumn_name: Seq<char>,
    pub seq_nr: u32,
    pub elem_size: u64,
    pub subclass_shape: Seq<i64>,
    pub cubes: Seq<TiledCubeModel>,
}

impl View for TiledHeader {
    type V = TiledModel;

    open spec fn view(&self) -> TiledModel {
        TiledModel {
            manager: self.manager,
            hypercolumn_name: self.hypercolumn_name@,
            seq_nr: self.seq_nr,
            elem_size: self.elem_size,
            subclass_shape: self.subclass_shape@,
            cubes: tiled_cubes(self.cubes@),
        }
    }
}

pub open spec fn tiled_cubes(s: Seq<TiledCube>) -> Seq<TiledCubeModel> {
    s.map_values(|c: TiledCube| c@)
}

pub open spec fn tiled_models(s: Seq<TiledHeader>) -> Seq<TiledModel> {
    s.map_values(|h: TiledHeader| h@)
}

/// The product of the first `n` dimensions.
pub open spec fn dims_product(s: Seq<i64>, n: nat) -> int
    decreases n,
{
    if n == 0 {
        1
    } else {
        dims_product(s, (n - 1) as nat) * s[n - 1]
    }
}

/// Whether the products of leading dimensions are machine integers.
pub open spec fn product_fits(s: Seq<i64>) -> bool {
    forall|n: nat| n <= s.len() ==> i64::MIN <= #[trigger] dims_product(s, n) <= i64::MAX
}

/// The number of elements of a tile, as an unsigned machine integer.
pub open spec fn tile_elements(s: Seq<i64>) -> u64 {
    bytes::pattern64(dims_product(s, s.len()) as i64)
}

/// Whether a tile's size in bytes is a machine integer, for elements of
/// `size` bytes.
pub open spec fn tile_fits(c: TiledCubeModel, size: u64) -> bool {
    product_fits(c.tile_shape) && tile_elements(c.tile_shape) * size <= u64::MAX
}

/// Whether the tile sizes of a header are machine integers.
pub open spec fn header_fits(h: TiledModel) -> bool {
    forall|i: int|
        0 <= i < h.cubes.len() ==> tile_fits(#[trigger] h.cubes[i], h.elem_size) && tile_fits(
            h.cubes[i],
            16,
        )
}

/// A shape without its last dimension, which is the row axis.
pub open spec fn cell_shape(s: Seq<i64>) -> Seq<i64> {
    if s.len() == 0 {
        s
    } else {
        s.drop_last()
    }
}

/// A hypercube with tiles of elements of `size` bytes.
pub open spec fn hypercube(c: TiledCubeModel, size: u64) -> CubeModel {
    CubeModel {
        cube_shape: c.cube_shape,
        tile_shape: c.tile_shape,
        cell_shape: cell_shape(c.cube_shape),
        bucket_size: (tile_elements(c.tile_shape) * size) as u64,
    }
}

/// The first header, from `i` on, of the manager `seq`.
pub open spec fn header_of(s: Seq<TiledModel>, seq: u32, i: int) -> Option<TiledModel>
    decreases s.len() - i,
{
    if i < 0 || i >= s.len() {
        None
    } else if s[i].manager == seq {
        Some(s[i])
    } else {
        header_of(s, seq, i + 1)
    }
}

/// The layout of a tiled manager.
pub open spec fn tiled_spec(manager_type: Seq<char>, h: TiledModel) -> DmSpecModel {
    if manager_type == "TiledShapeStMan"@ {
        DmSpecModel::TiledShapeStMan {
            default_tile_shape: h.subclass_shape,
            seqnr: h.seq_nr,
            hypercubes: h.cubes.map_values(|c: TiledCubeModel| hypercube(c, h.elem_size)),
        }
    } else {
        DmSpecModel::TiledColumnStMan {
            max_cache_size: 0,
            max_cache_size_64: 0,
            cube_shapes: h.cubes.map_values(|c: TiledCubeModel| c.cube_shape),
            tile_shapes: h.cubes.map_values(|c: TiledCubeModel| c.tile_shape),
            cell_shapes: h.cubes.map_values(|c: TiledCubeModel| cell_shape(c.cube_shape)),
            bucket_sizes: h.cubes.map_values(
                |c: TiledCubeModel| hypercube(c, 16).bucket_size,
            ),
            seqnr: h.seq_nr,
        }
    }
}

/// The layout of a data manager, read from the header of its data file.
pub open spec fn manager_spec(
    m: ManagerModel,
    big: bool,
    files: Seq<ManagerFileModel>,
    headers: Seq<TiledModel>,
) -> Result<DmSpecModel, StorageFault> {
    if m.manager_type == "StandardStMan"@ {
        match tableread::manager_file(files, m.sequence_nr, 0) {
            None => Err(StorageFault::MissingFile(m.sequence_nr)),
            Some(f) => match ssm::parsed(f.data, big) {
                Err(e) => Err(StorageFault::Ssm(e)),
                Ok(s) => Ok(
                    DmSpecModel::StandardStMan {
                        max_cache_size: s.header.pers_cache_size,
                        bucket_size: s.header.bucket_size,
                        pers_cache_size: s.header.pers_cache_size,
                        index_length: s.header.index_length,
                    },
                ),
            },
        }
    } else if m.manager_type == "IncrementalStMan"@ {
        match tableread::manager_file(files, m.sequence_nr, 0) {
            None => Err(StorageFault::MissingFile(m.sequence_nr)),
            Some(f) => match ism::parsed(f.data, big) {
                Err(e) => Err(StorageFault::Ism(e)),
                Ok(s) => Ok(
                    DmSpecModel::IncrementalStMan {
                        max_cache_size: s.header.pers_cache_size,
                        bucket_size: s.header.bucket_size,
                        pers_cache_size: s.header.pers_cache_size,
                    },
                ),
            },
        }
    } else if tableread::is_tiled(m.manager_type) {
        match header_of(headers, m.sequence_nr, 0) {
            None => Err(StorageFault::MissingFile(m.sequence_nr)),
            Some(h) => Ok(tiled_spec(m.manager_type, h)),
        }
    } else {
        Ok(DmSpecModel::Unsupported(m.manager_type))
    }
}

/// A data manager's name: as it was created, or that of the hypercolumn of a
/// tiled manager, else its type.
pub open spec fn manager_name(m: ManagerModel, headers: Seq<TiledModel>) -> Seq<char> {
    match m.blob {
        BlobModel::StandardStMan(s) => s.data_manager_name,
        _ => match header_of(headers, m.sequence_nr, 0) {
            Some(h) => if tableread::is_tiled(m.manager_type) {
                h.hypercolumn_name
            } else {
                m.manager_type
            },
            None => m.manager_type,
        },
    }
}

/// Whether `a` comes before `b` in the order of bytes, from byte `i` on.
pub open spec fn bytes_before(a: Seq<u8>, b: Seq<u8>, i: int) -> bool
    decreases b.len() - i,
{
    if i < 0 || i >= b.len() {
        false
    } else if i >= a.len() {
        true
    } else if a[i] != b[i] {
        a[i] < b[i]
    } else {
        bytes_before(a, b, i + 1)
    }
}

/// Whether the text `a` comes before `b`.
pub open spec fn text_before(a: Seq<char>, b: Seq<char>) -> bool {
    bytes_before(text::text_bytes(a), text::text_bytes(b), 0)
}

/// The place, from `i` on, of the first text that `name` comes before.
pub open spec fn slot(s: Seq<Seq<char>>, name: Seq<char>, i: int) -> int
    decreases s.len() - i,
{
    if i < 0 || i >= s.len() || text_before(name, s[i]) {
        i
    } else {
        slot(s, name, i + 1)
    }
}

/// The original names of those of the first `n` columns that are bound to
/// the manager `seq`.
pub open spec fn bound_names(cols: Seq<InfoModel>, seq: u32, n: nat) -> Seq<Seq<char>>
    decreases n,
{
    if n == 0 {
        Seq::empty()
    } else {
        let before = bound_names(cols, seq, (n - 1) as nat);
        if cols[n - 1].data_manager_seq == seq {
            before.push(cols[n - 1].original_name)
        } else {
            before
        }
    }
}

/// The same names, each put in its place in order.
pub open spec fn sorted_names(cols: Seq<InfoModel>, seq: u32, n: nat) -> Seq<Seq<char>>
    decreases n,
{
    if n == 0 {
        Seq::empty()
    } else {
        let before = sorted_names(cols, seq, (n - 1) as nat);
        let name = cols[n - 1].original_name;
        if cols[n - 1].data_manager_seq == seq {
            before.insert(slot(before, name, 0), name)
        } else {
            before
        }
    }
}

/// What is told of a data manager.
pub open spec fn manager_info(
    m: ManagerModel,
    cols: Seq<InfoModel>,
    headers: Seq<TiledModel>,
    spec: DmSpecModel,
) -> DmInfoModel {
    DmInfoModel {
        manager_type: m.manager_type,
        name: manager_name(m, headers),
        seqnr: m.sequence_nr,
        spec,
        columns: sorted_names(cols, m.sequence_nr, cols.len()),
    }
}

/// The key of the entry `i`, counted from 1.
pub open spec fn entry_key(i: int) -> Seq<char> {
    "*"@ + text::decimal(i + 1)
}

/// The entries of the managers from `k` on, after `acc`: one for each manager
/// that has columns.
pub open spec fn infos(
    dat: TableDatModel,
    files: Seq<ManagerFileModel>,
    headers: Seq<TiledModel>,
    k: int,
    acc: Seq<(Seq<char>, DmInfoModel)>,
) -> Result<Seq<(Seq<char>, DmInfoModel)>, StorageFault>
    decreases dat.column_set.data_managers.len() - k,
{
    let ms = dat.column_set.data_managers;
    let cols = dat.column_set.columns;
    if k < 0 || k >= ms.len() {
        Ok(acc)
    } else if sorted_names(cols, ms[k].sequence_nr, cols.len()).len() == 0 {
        infos(dat, files, headers, k + 1, acc)
    } else {
        match manager_spec(ms[k], dat.header.big_endian, files, headers) {
            Err(f) => Err(f),
            Ok(spec) => infos(
                dat,
                files,
                headers,
                k + 1,
                acc.push(
                    (entry_key(acc.len() as int), manager_info(ms[k], cols, headers, spec)),
                ),
            ),
        }
    }
}

fn dims_product_of(s: &Vec<i64>) -> (r: i64)
    requires
        product_fits(s@),
    ensures
        r == dims_product(s@, s@.len()),
{
    let mut p: i64 = 1;
    let mut i: usize = 0;
    while i < s.len()
        invariant
            i <= s@.len(),
            product_fits(s@),
            p == dims_product(s@, i as nat),
        decreases s@.len() - i,
    {
        assert(dims_product(s@, (i + 1) as nat) == dims_product(s@, i as nat) * s@[i as int]);
        p = p * s[i];
        i = i + 1;
    }
    p
}

fn tile_size(c: &TiledCube, size: u64) -> (r: u64)
    requires
        tile_fits(c@, size),
    ensures
        r == hypercube(c@, size).bucket_size,
{
    to_pattern64(dims_product_of(&c.tile_shape)) * size
}

fn without_rows(s: &Vec<i64>) -> (r: Vec<i64>)
    ensures
        r@ == cell_shape(s@),
{
    let mut out = vstd::slice::slice_to_vec(s.as_slice());
    if out.len() > 0 {
        let _row = out.pop();
    }
    assert(out@ =~= cell_shape(s@));
    out
}

fn shape_cubes(h: &TiledHeader) -> (r: Vec<TsmHypercube>)
    requires
        header_fits(h@),
    ensures
        dminfo::cube_models(r@) == h@.cubes.map_values(
            |c: TiledCubeModel| hypercube(c, h@.elem_size),
        ),
{
    let mut out: Vec<TsmHypercube> = Vec::new();
    let mut i: usize = 0;
    while i < h.cubes.len()
        invariant
            i <= h.cubes@.len(),
            header_fits(h@),
            out@.len() == i,
            forall|k: int|
                0 <= k < i ==> (#[trigger] out@[k])@ == hypercube(h.cubes@[k]@, h.elem_size),
        decreases h.cubes@.len() - i,
    {
        let c = &h.cubes[i];
        assert(h@.cubes[i as int] == c@);
        let made = TsmHypercube {
            cube_shape: vstd::slice::slice_to_vec(c.cube_shape.as_slice()),
            tile_shape: vstd::slice::slice_to_vec(c.tile_shape.as_slice()),
            cell_shape: without_rows(&c.cube_shape),
            bucket_size: tile_size(c, h.elem_size),
        };
        out.push(made);
        i = i + 1;
    }
    assert(dminfo::cube_models(out@) =~= h@.cubes.map_values(
        |c: TiledCubeModel| hypercube(c, h@.elem_size),
    ));
    out
}

fn column_spec(h: &TiledHeader) -> (r: DmSpec)
    requires
        header_fits(h@),
    ensures
        r@ == tiled_spec("TiledColumnStMan"@, h@),
{
    let mut cube_shapes: Vec<Vec<i64>> = Vec::new();
    let mut tile_shapes: Vec<Vec<i64>> = Vec::new();
    let mut cell_shapes: Vec<Vec<i64>> = Vec::new();
    let mut bucket_sizes: Vec<u64> = Vec::new();
    let mut i: usize = 0;
    while i < h.cubes.len()
        invariant
            i <= h.cubes@.len(),
            header_fits(h@),
            cube_shapes@.len() == i,
            tile_shapes@.len() == i,
            cell_shapes@.len() == i,
            bucket_sizes@.len() == i,
            forall|k: int| 0 <= k < i ==> (#[trigger] cube_shapes@[k])@ == h.cubes@[k]@.cube_shape,
            forall|k: int| 0 <= k < i ==> (#[trigger] tile_shapes@[k])@ == h.cubes@[k]@.tile_shape,
            forall|k: int|
                0 <= k < i ==> (#[trigger] cell_shapes@[k])@ == cell_shape(
                    h.cubes@[k]@.cube_shape,
                ),
            forall|k: int|
                0 <= k < i ==> #[trigger] bucket_sizes@[k] == hypercube(
                    h.cubes@[k]@,
                    16,
                ).bucket_size,
        decreases h.cubes@.len() - i,
    {
        let c = &h.cubes[i];
        assert(h@.cubes[i as int] == c@);
        cube_shapes.push(vstd::slice::slice_to_vec(c.cube_shape.as_slice()));
        tile_shapes.push(vstd::slice::slice_to_vec(c.tile_shape.as_slice()));
        cell_shapes.push(without_rows(&c.cube_shape));
        bucket_sizes.push(tile_size(c, 16));
        i = i + 1;
    }
    proof {
        let m = tiled_spec("TiledColumnStMan"@, h@);
        assert("TiledColumnStMan"@ != "TiledShapeStMan"@) by {
            reveal_strlit("TiledColumnStMan");
            reveal_strlit("TiledShapeStMan");
            assert("TiledColumnStMan"@[5] != "TiledShapeStMan"@[5]);
        }
        assert(dminfo::shapes(cube_shapes@) =~= m->cube_shapes);
        assert(dminfo::shapes(tile_shapes@) =~= m->tile_shapes);
        assert(dminfo::shapes(cell_shapes@) =~= m->cell_shapes);
        assert(bucket_sizes@ =~= m->bucket_sizes);
    }
    DmSpec::TiledColumnStMan {
        max_cache_size: 0,
        max_cache_size_64: 0,
        cube_shapes,
        tile_shapes,
        cell_shapes,
        bucket_sizes,
        seqnr: h.seq_nr,
    }
}

fn find_header(headers: &[TiledHeader], seq: u32) -> (r: Option<usize>)
    ensures
        match r {
            Some(i) => i < headers@.len() && header_of(tiled_models(headers@), seq, 0) == Some(
                headers@[i as int]@,
            ),
            None => header_of(tiled_models(headers@), seq, 0) is None,
        },
{
    let ghost all = header_of(tiled_models(headers@), seq, 0);
    let mut i: usize = 0;
    while i < headers.len()
        invariant
            i <= headers@.len(),
            all == header_of(tiled_models(headers@), seq, 0),
            all == header_of(tiled_models(headers@), seq, i as int),
        decreases headers@.len() - i,
    {
        assert(tiled_models(headers@)[i as int] == headers@[i as int]@);
        if headers[i].manager == seq {
            return Some(i);
        }
        i = i + 1;
    }
    None
}

/// Whether the tile sizes of all headers are machine integers.
pub open spec fn headers_fit(headers: Seq<TiledModel>) -> bool {
    forall|i: int| 0 <= i < headers.len() ==> header_fits(#[trigger] headers[i])
}

fn spec_of(
    m: &DataManager,
    big: bool,
    files: &[ManagerFile],
    headers: &[TiledHeader],
) -> (res: Result<DmSpec, StorageError>)
    requires
        headers_fit(tiled_models(headers@)),
    ensures
        match manager_spec(m@, big, tableread::file_models(files@), tiled_models(headers@)) {
            Ok(s) => res is Ok && res->Ok_0@ == s,
            Err(f) => res is Err && res->Err_0@ == f,
        },
{
    let seq: u32 = m.sequence_nr;
    if text_eq(m.manager_type.as_str(), "StandardStMan") {
        match find_file(files, seq) {
            None => Err(StorageError::MissingFile(seq)),
            Some(i) => match StandardStManFile::parse(files[i].data.as_slice(), big) {
                Err(e) => Err(StorageError::Ssm(e)),
                Ok(f) => {
                    let h = f.header();
                    Ok(
                        DmSpec::StandardStMan {
                            max_cache_size: h.pers_cache_size,
                            bucket_size: h.bucket_size,
                            pers_cache_size: h.pers_cache_size,
                            index_length: h.index_length,
                        },
                    )
                },
            },
        }
    } else if text_eq(m.manager_type.as_str(), "IncrementalStMan") {
        match find_file(files, seq) {
            None => Err(StorageError::MissingFile(seq)),
            Some(i) => match IsmFile::parse(files[i].data.as_slice(), big) {
                Err(e) => Err(StorageError::Ism(e)),
                Ok(f) => {
                    let h = f.header();
                    Ok(
                        DmSpec::IncrementalStMan {
                            max_cache_size: h.pers_cache_size,
                            bucket_size: h.bucket_size,
                            pers_cache_size: h.pers_cache_size,
                        },
                    )
                },
            },
        }
    } else if tiled(m.manager_type.as_str()) {
        match find_header(headers, seq) {
            None => Err(StorageError::MissingFile(seq)),
            Some(i) => {
                let h = &headers[i];
                assert(tiled_models(headers@)[i as int] == h@);
                if text_eq(m.manager_type.as_str(), "TiledShapeStMan") {
                    let hypercubes = shape_cubes(h);
                    Ok(
                        DmSpec::TiledShapeStMan {
                            default_tile_shape: vstd::slice::slice_to_vec(
                                h.subclass_shape.as_slice(),
                            ),
                            seqnr: h.seq_nr,
                            hypercubes,
                        },
                    )
                } else {
                    Ok(column_spec(h))
                }
            },
        }
    } else {
        Ok(DmSpec::Unsupported(m.manager_type.clone()))
    }
}

fn name_of(m: &DataManager, headers: &[TiledHeader]) -> (r: String)
    ensures
        r@ == manager_name(m@, tiled_models(headers@)),
{
    match &m.blob {
        DataManagerBlob::StandardStMan(s) => s.data_manager_name.clone(),
        _ => match find_header(headers, m.sequence_nr) {
            Some(i) => if tiled(m.manager_type.as_str()) {
                headers[i].hypercolumn_name.clone()
            } else {
                m.manager_type.clone()
            },
            None => m.manager_type.clone(),
        },
    }
}

/// Whether the text `a` comes before `b` in the order of their bytes.
pub fn comes_before(a: &str, b: &str) -> (r: bool)
    ensures
        r == text_before(a@, b@),
{
    let x = bytes_of(a);
    let y = bytes_of(b);
    let mut i: usize = 0;
    while i < y.len() && i < x.len()
        invariant
            i <= y@.len(),
            i <= x@.len(),
            bytes_before(x@, y@, 0) == bytes_before(x@, y@, i as int),
            x@ == text::text_bytes(a@),
            y@ == text::text_bytes(b@),
        decreases y@.len() - i,
    {
        if x[i] != y[i] {
            return x[i] < y[i];
        }
        i = i + 1;
    }
    i < y.len()
}

fn slot_of(s: &Vec<String>, name: &str) -> (r: usize)
    ensures
        r <= s@.len(),
        r == slot(dminfo::texts(s@), name@, 0),
{
    let ghost ts = dminfo::texts(s@);
    let mut i: usize = 0;
    while i < s.len()
        invariant
            i <= s@.len(),
            ts == dminfo::texts(s@),
            slot(ts, name@, 0) == slot(ts, name@, i as int),
        decreases s@.len() - i,
    {
        assert(ts[i as int] == s@[i as int]@);
        if comes_before(name, s[i].as_str()) {
            return i;
        }
        i = i + 1;
    }
    i
}

fn names_of(cols: &Vec<ColumnInfo>, seq: u32) -> (r: Vec<String>)
    ensures
        dminfo::texts(r@) == sorted_names(
            columnset::info_models(cols@),
            seq,
            cols@.len(),
        ),
{
    let ghost ms = columnset::info_models(cols@);
    let mut out: Vec<String> = Vec::new();
    assert(dminfo::texts(out@) =~= Seq::<Seq<char>>::empty());
    let mut i: usize = 0;
    while i < cols.len()
        invariant
            i <= cols@.len(),
            ms == columnset::info_models(cols@),
            dminfo::texts(out@) == sorted_names(ms, seq, i as nat),
        decreases cols@.len() - i,
    {
        assert(ms[i as int] == cols@[i as int]@);
        if cols[i].data_manager_seq == seq {
            let ghost before = out@;
            let at: usize = slot_of(&out, cols[i].original_name.as_str());
            let name = cols[i].original_name.clone();
            out.insert(at, name);
            assert(dminfo::texts(out@) =~= dminfo::texts(before).insert(at as int, name@));
        }
        i = i + 1;
    }
    out
}

fn key_of(i: usize) -> (r: String)
    requires
        i < usize::MAX,
    ensures
        r@ == entry_key(i as int),
{
    let mut s: String = String::new();
    s.append("*");
    push_u64(&mut s, (i + 1) as u64);
    assert(s@ =~= entry_key(i as int));
    s
}

pub open spec fn entry_models(s: Seq<(String, DmInfo)>) -> Seq<(Seq<char>, DmInfoModel)> {
    s.map_values(|e: (String, DmInfo)| (e.0@, e.1@))
}

/// List the data managers of a table that have columns, numbered from 1
/// (`"*1"`, `"*2"`, ...) in the order of the table's managers, with their
/// layouts read from the headers of their data files.
pub fn get_dminfo(dat: &TableDat, files: &[ManagerFile], headers: &[TiledHeader]) -> (res: Result<
    Vec<(String, DmInfo)>,
    TableDatError,
>)
    requires
        headers_fit(tiled_models(headers@)),
    ensures
        match infos(
            dat@,
            tableread::file_models(files@),
            tiled_models(headers@),
            0,
            Seq::empty(),
        ) {
            Ok(s) => res is Ok && entry_models(res->Ok_0@) == s,
            Err(f) => res is Err && res->Err_0@ == TableDatFault::Storage(f),
        },
{
    let ghost d = dat@;
    let ghost fs = tableread::file_models(files@);
    let ghost hs = tiled_models(headers@);
    let ghost all = infos(d, fs, hs, 0, Seq::empty());
    let mut out: Vec<(String, DmInfo)> = Vec::new();
    assert(entry_models(out@) =~= Seq::<(Seq<char>, DmInfoModel)>::empty());
    let mut k: usize = 0;
    while k < dat.column_set.data_managers.len()
        invariant
            k <= dat.column_set.data_managers@.len(),
            d == dat@,
            fs == tableread::file_models(files@),
            hs == tiled_models(headers@),
            headers_fit(hs),
            out@.len() <= k,
            all == infos(d, fs, hs, 0, Seq::empty()),
            all == infos(d, fs, hs, k as int, entry_models(out@)),
        decreases dat.column_set.data_managers@.len() - k,
    {
        let m = &dat.column_set.data_managers[k];
        assert(d.column_set.data_managers[k as int] == m@);
        let columns = names_of(&dat.column_set.columns, m.sequence_nr);
        assert(dminfo::texts(columns@).len() == columns@.len());
        if columns.len() > 0 {
            let ghost before = out@;
            match spec_of(m, dat.header.big_endian, files, headers) {
                Err(e) => {
                    return Err(TableDatError::Storage(e));
                },
                Ok(spec) => {
                    let name = name_of(m, headers);
                    let key = key_of(out.len());
                    let info = DmInfo {
                        manager_type: m.manager_type.clone(),
                        name,
                        seqnr: m.sequence_nr,
                        spec,
                        columns,
                    };
                    assert(info@ =~= manager_info(m@, d.column_set.columns, hs, spec@));
                    out.push((key, info));
                    assert(entry_models(out@) =~= entry_models(before).push((key@, info@)));
                },
            }
        }
        k = k + 1;
    }
    Ok(out)
}

/// Two texts never come before each other.
pub proof fn law_before_asymmetric(a: Seq<u8>, b: Seq<u8>, i: int)
    requires
        0 <= i,
        bytes_before(a, b, i),
    ensures
        !bytes_before(b, a, i),
    decreases b.len() - i,
{
    if i < a.len() && a[i] == b[i] {
        law_before_asymmetric(a, b, i + 1);
    }
}

proof fn lemma_before_transitive(a: Seq<u8>, b: Seq<u8>, c: Seq<u8>, i: int)
    requires
        0 <= i,
        !bytes_before(b, a, i),
        !bytes_before(c, b, i),
    ensures
        !bytes_before(c, a, i),
    decreases a.len() + b.len() + c.len() - 3 * i,
{
    if i < a.len() && i < b.len() && i < c.len() && a[i] == b[i] && b[i] == c[i] {
        lemma_before_transitive(a, b, c, i + 1);
    }
}

/// Whether no text comes before an earlier one.
pub open spec fn in_order(s: Seq<Seq<char>>) -> bool {
    forall|i: int, j: int| 0 <= i < j < s.len() ==> !text_before(#[trigger] s[j], #[trigger] s[i])
}

proof fn lemma_slot(s: Seq<Seq<char>>, name: Seq<char>, i: int)
    requires
        0 <= i <= s.len(),
    ensures
        i <= slot(s, name, i) <= s.len(),
        slot(s, name, i) < s.len() ==> text_before(name, s[slot(s, name, i)]),
        forall|k: int| i <= k < slot(s, name, i) ==> !text_before(name, #[trigger] s[k]),
    decreases s.len() - i,
{
    if i < s.len() && !text_before(name, s[i]) {
        lemma_slot(s, name, i + 1);
    }
}

proof fn lemma_insert_in_order(s: Seq<Seq<char>>, name: Seq<char>)
    requires
        in_order(s),
    ensures
        in_order(s.insert(slot(s, name, 0), name)),
{
    let p = slot(s, name, 0);
    lemma_slot(s, name, 0);
    let t = s.insert(p, name);
    assert forall|i: int, j: int| 0 <= i < j < t.len() implies !text_before(
        #[trigger] t[j],
        #[trigger] t[i],
    ) by {
        let x = text::text_bytes(t[i]);
        let y = text::text_bytes(t[j]);
        if i == p {
            // t[j] stands at or after the text that the name comes before
            let z = text::text_bytes(s[p]);
            law_before_asymmetric(x, z, 0);
            if j - 1 > p {
                assert(!text_before(s[j - 1], s[p]));
            } else {
                if bytes_before(z, z, 0) {
                    law_before_asymmetric(z, z, 0);
                }
            }
            lemma_before_transitive(x, z, y, 0);
        } else if j == p {
            assert(!text_before(name, s[i]));
        } else {
            let a = if i < p {
                i
            } else {
                i - 1
            };
            let b = if j < p {
                j
            } else {
                j - 1
            };
            assert(t[i] == s[a]);
            assert(t[j] == s[b]);
        }
    }
}

/// The columns told of a manager are the names bound to it, each as often as
/// it occurs, in order.
pub proof fn law_names_sorted(cols: Seq<InfoModel>, seq: u32, n: nat)
    requires
        n <= cols.len(),
    ensures
        in_order(sorted_names(cols, seq, n)),
        sorted_names(cols, seq, n).to_multiset() == bound_names(cols, seq, n).to_multiset(),
    decreases n,
{
    broadcast use vstd::seq_lib::group_to_multiset_ensures;

    if n > 0 {
        law_names_sorted(cols, seq, (n - 1) as nat);
        let before = sorted_names(cols, seq, (n - 1) as nat);
        let name = cols[n - 1].original_name;
        if cols[n - 1].data_manager_seq == seq {
            lemma_slot(before, name, 0);
            lemma_insert_in_order(before, name);
        }
    }
}

/// A column is bound to a manager.
pub open spec fn has_columns(cols: Seq<InfoModel>, seq: u32) -> bool {
    exists|c: int| 0 <= c < cols.len() && (#[trigger] cols[c]).data_manager_seq == seq
}

/// How many of the first `n` managers have columns.
pub open spec fn used(ms: Seq<ManagerModel>, cols: Seq<InfoModel>, n: nat) -> nat
    decreases n,
{
    if n == 0 {
        0
    } else {
        used(ms, cols, (n - 1) as nat) + if has_columns(cols, ms[n - 1].sequence_nr) {
            1nat
        } else {
            0nat
        }
    }
}

proof fn lemma_has_names(cols: Seq<InfoModel>, seq: u32, n: nat)
    requires
        n <= cols.len(),
    ensures
        sorted_names(cols, seq, n).len() > 0 <==> exists|c: int|
            0 <= c < n && (#[trigger] cols[c]).data_manager_seq == seq,
    decreases n,
{
    if n > 0 {
        lemma_has_names(cols, seq, (n - 1) as nat);
        let before = sorted_names(cols, seq, (n - 1) as nat);
        if cols[n - 1].data_manager_seq == seq {
            lemma_slot(before, cols[n - 1].original_name, 0);
            assert(cols[n - 1].data_manager_seq == seq);
        } else if before.len() > 0 {
            let c = choose|c: int| 0 <= c < n - 1 && (#[trigger] cols[c]).data_manager_seq == seq;
            assert(cols[c].data_manager_seq == seq);
        }
    }
}

proof fn lemma_infos(
    dat: TableDatModel,
    files: Seq<ManagerFileModel>,
    headers: Seq<TiledModel>,
    k: int,
    acc: Seq<(Seq<char>, DmInfoModel)>,
    i: int,
)
    requires
        0 <= k <= dat.column_set.data_managers.len(),
        acc.len() == used(dat.column_set.data_managers, dat.column_set.columns, k as nat),
    ensures
        infos(dat, files, headers, k, acc) matches Ok(s) ==> {
            let ms = dat.column_set.data_managers;
            let cols = dat.column_set.columns;
            let p = used(ms, cols, i as nat) as int;
            &&& s.len() == used(ms, cols, ms.len())
            &&& s.len() >= acc.len()
            &&& forall|x: int| 0 <= x < acc.len() ==> #[trigger] s[x] == acc[x]
            &&& k <= i < ms.len() && has_columns(cols, ms[i].sequence_nr) ==> {
                &&& p < s.len()
                &&& s[p].0 == "*"@ + text::decimal(p + 1)
                &&& s[p].1.manager_type == ms[i].manager_type
                &&& s[p].1.seqnr == ms[i].sequence_nr
                &&& s[p].1.columns == sorted_names(cols, ms[i].sequence_nr, cols.len())
            }
        },
    decreases dat.column_set.data_managers.len() - k,
{
    let ms = dat.column_set.data_managers;
    let cols = dat.column_set.columns;
    if k < ms.len() {
        lemma_has_names(cols, ms[k].sequence_nr, cols.len());
        if sorted_names(cols, ms[k].sequence_nr, cols.len()).len() == 0 {
            lemma_infos(dat, files, headers, k + 1, acc, i);
        } else if let Ok(spec) = manager_spec(ms[k], dat.header.big_endian, files, headers) {
            let e = (entry_key(acc.len() as int), manager_info(ms[k], cols, headers, spec));
            lemma_infos(dat, files, headers, k + 1, acc.push(e), i);
            if let Ok(s) = infos(dat, files, headers, k, acc) {
                assert(s[acc.len() as int] == acc.push(e)[acc.len() as int]);
                assert forall|x: int| 0 <= x < acc.len() implies #[trigger] s[x] == acc[x] by {
                    assert(s[x] == acc.push(e)[x]);
                }
            }
        }
    }
}

/// What is told of the data managers of a table: one entry for each manager
/// with columns, in the managers' order, numbered from 1, with its type, its
/// number, and the names of the columns bound to it, in order.
pub proof fn law_managers_told(
    dat: TableDatModel,
    files: Seq<ManagerFileModel>,
    headers: Seq<TiledModel>,
    i: int,
)
    requires
        infos(dat, files, headers, 0, Seq::empty()) is Ok,
        0 <= i < dat.column_set.data_managers.len(),
    ensures
        ({
            let s = infos(dat, files, headers, 0, Seq::empty())->Ok_0;
            let ms = dat.column_set.data_managers;
            let cols = dat.column_set.columns;
            let p = used(ms, cols, i as nat) as int;
            &&& s.len() == used(ms, cols, ms.len())
            &&& has_columns(cols, ms[i].sequence_nr) ==> {
                &&& p < s.len()
                &&& s[p].0 == "*"@ + text::decimal(p + 1)
                &&& s[p].1.manager_type == ms[i].manager_type
                &&& s[p].1.seqnr == ms[i].sequence_nr
                &&& in_order(s[p].1.columns)
                &&& s[p].1.columns.to_multiset() == bound_names(
                    cols,
                    ms[i].sequence_nr,
                    cols.len(),
                ).to_multiset()
            }
        }),
{
    lemma_infos(dat, files, headers, 0, Seq::empty(), i);
    law_names_sorted(
        dat.column_set.columns,
        dat.column_set.data_managers[i].sequence_nr,
        dat.column_set.columns.len(),
    );
}

/// The product of the dimensions of a shape is that of its parts, and that of
/// one dimension is the dimension.
pub proof fn law_product_split(a: Seq<i64>, b: Seq<i64>, d: i64)
    ensures
        dims_product(a + b, (a + b).len()) == dims_product(a, a.len()) * dims_product(b, b.len()),
        dims_product(seq![d], 1) == d,
    decreases b.len(),
{
    reveal_with_fuel(dims_product, 2);
    if b.len() == 0 {
        assert(a + b =~= a);
    } else {
        let c = b.drop_last();
        law_product_split(a, c, d);
        lemma_product_front(a + b, a + c, (a + c).len());
        lemma_product_front(b, c, c.len());
        let x = dims_product(a, a.len());
        let y = dims_product(c, c.len());
        assert((a + b).last() == b.last());
        assert((x * y) * b.last() == x * (y * b.last())) by (nonlinear_arith);
    }
}

proof fn lemma_product_front(s: Seq<i64>, t: Seq<i64>, n: nat)
    requires
        n <= s.len(),
        n <= t.len(),
        forall|i: int| 0 <= i < n ==> s[i] == #[trigger] t[i],
    ensures
        dims_product(s, n) == dims_product(t, n),
    decreases n,
{
    if n > 0 {
        lemma_product_front(s, t, (n - 1) as nat);
        assert(s[n - 1] == t[n - 1]);
    }
}

/// What is told of a hypercube: its shapes, with the cells' shape that of the
/// cube without its last dimension, and as size of a bucket the bytes of a
/// tile.
pub proof fn law_hypercube_told(c: TiledCubeModel, size: u64)
    requires
        c.cube_shape.len() > 0,
        tile_fits(c, size),
        dims_product(c.tile_shape, c.tile_shape.len()) >= 0,
    ensures
        ({
            let h = hypercube(c, size);
            let n = c.cube_shape.len() - 1;
            &&& h.cube_shape == c.cube_shape && h.tile_shape == c.tile_shape
            &&& h.cell_shape.len() == n
            &&& forall|i: int| 0 <= i < n ==> #[trigger] h.cell_shape[i] == c.cube_shape[i]
            &&& h.bucket_size == dims_product(c.tile_shape, c.tile_shape.len()) * size
        }),
{
}

proof fn lemma_bytes_before(a: Seq<u8>, b: Seq<u8>, i: int, k: int)
    requires
        0 <= i <= k <= a.len(),
        k <= b.len(),
        forall|j: int| i <= j < k ==> #[trigger] a[j] == b[j],
    ensures
        bytes_before(a, b, i) == bytes_before(a, b, k),
    decreases k - i,
{
    if i < k {
        assert(a[i] == b[i]);
        lemma_bytes_before(a, b, i + 1, k);
    }
}

/// Texts are in the order of their bytes: where two texts first differ, the one
/// with the lesser byte comes first, and a text comes before those that it
/// begins.
pub proof fn law_text_order(a: Seq<char>, b: Seq<char>, k: int)
    requires
        ({
            let x = text::text_bytes(a);
            let y = text::text_bytes(b);
            &&& 0 <= k <= x.len() && k <= y.len()
            &&& forall|j: int| 0 <= j < k ==> #[trigger] x[j] == y[j]
            &&& k < x.len() && k < y.len() ==> x[k] != y[k]
        }),
    ensures
        ({
            let x = text::text_bytes(a);
            let y = text::text_bytes(b);
            text_before(a, b) == (k < y.len() && (k == x.len() || x[k] < y[k]))
        }),
{
    lemma_bytes_before(text::text_bytes(a), text::text_bytes(b), 0, k);
}

/// What is told of a tiled manager: its hypercubes in their order. Their shapes
/// are those of the header.
pub proof fn law_tiled_told(manager_type: Seq<char>, h: TiledModel, i: int)
    requires
        0 <= i < h.cubes.len(),
    ensures
        match tiled_spec(manager_type, h) {
            DmSpecModel::TiledShapeStMan { default_tile_shape, seqnr, hypercubes } => {
                &&& manager_type == "TiledShapeStMan"@
                &&& default_tile_shape == h.subclass_shape && seqnr == h.seq_nr
                &&& hypercubes.len() == h.cubes.len()
                &&& hypercubes[i].cube_shape == h.cubes[i].cube_shape
                &&& hypercubes[i].tile_shape == h.cubes[i].tile_shape
                &&& hypercubes[i].cell_shape == cell_shape(h.cubes[i].cube_shape)
                &&& hypercubes[i].bucket_size == hypercube(h.cubes[i], h.elem_size).bucket_size
            },
            DmSpecModel::TiledColumnStMan {
                cube_shapes,
                tile_shapes,
                cell_shapes,
                bucket_sizes,
                seqnr,
                ..
            } => {
                &&& manager_type != "TiledShapeStMan"@
                &&& seqnr == h.seq_nr
                &&& cube_shapes.len() == h.cubes.len() && tile_shapes.len() == h.cubes.len()
                &&& cell_shapes.len() == h.cubes.len() && bucket_sizes.len() == h.cubes.len()
                &&& cube_shapes[i] == h.cubes[i].cube_shape
                &&& tile_shapes[i] == h.cubes[i].tile_shape
                &&& cell_shapes[i] == cell_shape(h.cubes[i].cube_shape)
                &&& bucket_sizes[i] == hypercube(h.cubes[i], 16).bucket_size
            },
            _ => false,
        },
{
}

proof fn lemma_header_of(s: Seq<TiledModel>, seq: u32, i: int, k: int)
    requires
        0 <= i <= k <= s.len(),
        forall|j: int| i <= j < k ==> (#[trigger] s[j]).manager != seq,
        k < s.len() ==> s[k].manager == seq,
    ensures
        header_of(s, seq, i) == if k < s.len() {
            Some(s[k])
        } else {
            None
        },
    decreases k - i,
{
    if i < k {
        assert(s[i].manager != seq);
        lemma_header_of(s, seq, i + 1, k);
    }
}

/// A manager is told under the name that it was stored with, a tiled one under
/// that of its hypercolumn, and one without either under its type. Of a tiled
/// manager the first header with its number counts, `k`.
pub proof fn law_manager_name(m: ManagerModel, headers: Seq<TiledModel>, k: int)
    requires
        0 <= k <= headers.len(),
        forall|j: int| 0 <= j < k ==> (#[trigger] headers[j]).manager != m.sequence_nr,
        k < headers.len() ==> headers[k].manager == m.sequence_nr,
    ensures
        manager_name(m, headers) == if m.blob is StandardStMan {
            m.blob->StandardStMan_0.data_manager_name
        } else if k < headers.len() && tableread::is_tiled(m.manager_type) {
            headers[k].hypercolumn_name
        } else {
            m.manager_type
        },
{
    lemma_header_of(headers, m.sequence_nr, 0, k);
}

/// The layout that is told of a manager is the one that the header of its own
/// file gives.
pub proof fn law_layout_told(
    m: ManagerModel,
    big: bool,
    files: Seq<ManagerFileModel>,
    headers: Seq<TiledModel>,
)
    ensures
        manager_spec(m, big, files, headers) matches Ok(s) ==> match s {
            DmSpecModel::StandardStMan { bucket_size, pers_cache_size, index_length, .. } => {
                &&& m.manager_type == "StandardStMan"@
                &&& tableread::manager_file(files, m.sequence_nr, 0) matches Some(f) && (ssm::parsed(
                    f.data,
                    big,
                ) matches Ok(p) && p.header.bucket_size == bucket_size && p.header.pers_cache_size
                    == pers_cache_size && p.header.index_length == index_length)
            },
            DmSpecModel::IncrementalStMan { bucket_size, pers_cache_size, .. } => {
                &&& m.manager_type == "IncrementalStMan"@
                &&& tableread::manager_file(files, m.sequence_nr, 0) matches Some(f) && (ism::parsed(
                    f.data,
                    big,
                ) matches Ok(p) && p.header.bucket_size == bucket_size && p.header.pers_cache_size
                    == pers_cache_size)
            },
            DmSpecModel::Unsupported(t) => t == m.manager_type && !tableread::is_tiled(t),
            _ => tableread::is_tiled(m.manager_type),
        },
{
}

} // verus!
