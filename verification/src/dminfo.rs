//! Data-manager information: what each storage manager of a table is, how it
//! is laid out and which columns it holds, and its text as JSON.
use crate::json;
use crate::text;
use crate::text::{push_i64, push_json_string, push_u64};
use vstd::prelude::*;

verus! {

/// What is told of one data manager of a table.
#[derive(Debug)]
pub struct DmInfo {
    pub manager_type: String,
    pub name: String,
    pub seqnr: u32,
    pub spec: DmSpec,
    /// Column names belonging to this manager, sorted.
    pub columns: Vec<String>,
}

/// How a data manager is laid out.
#[derive(Debug)]
pub enum DmSpec {
    StandardStMan {
        max_cache_size: u32,
        bucket_size: u32,
        pers_cache_size: u32,
        index_length: u32,
    },
    IncrementalStMan { max_cache_size: u32, bucket_size: u32, pers_cache_size: u32 },
    TiledColumnStMan {
        max_cache_size: u32,
        max_cache_size_64: i64,
        cube_shapes: Vec<Vec<i64>>,
        tile_shapes: Vec<Vec<i64>>,
        cell_shapes: Vec<Vec<i64>>,
        bucket_sizes: Vec<u64>,
        seqnr: u32,
    },
    TiledShapeStMan { default_tile_shape: Vec<i64>, seqnr: u32, hypercubes: Vec<TsmHypercube> },
    Unsupported(String),
}

/// One hypercube of a `TiledShapeStMan`.
#[derive(Debug)]
pub struct TsmHypercube {
    pub cube_shape: Vec<i64>,
    pub tile_shape: Vec<i64>,
    pub cell_shape: Vec<i64>,
    pub bucket_size: u64,
}

/// What a [`TsmHypercube`] says.
#[verifier::ext_equal]
pub struct CubeModel {
    pub cube_shape: Seq<i64>,
    pub tile_shape: Seq<i64>,
    pub cell_shape: Seq<i64>,
    pub bucket_size: u64,
}

impl View for TsmHypercube {
    type V = CubeModel;

    open spec fn view(&self) -> CubeModel {
        CubeModel {
            cube_shape: self.cube_shape@,
            tile_shape: self.tile_shape@,
            cell_shape: self.cell_shape@,
            bucket_size: self.bucket_size,
        }
    }
}

pub open spec fn cube_models(s: Seq<TsmHypercube>) -> Seq<CubeModel> {
    s.map_values(|c: TsmHypercube| c@)
}

pub open spec fn shapes(s: Seq<Vec<i64>>) -> Seq<Seq<i64>> {
    s.map_values(|v: Vec<i64>| v@)
}

/// What a [`DmSpec`] says. The shapes of a `TiledColumnStMan` are its
/// hypercubes.
#[verifier::ext_equal]
pub enum DmSpecModel {
    StandardStMan {
        max_cache_size: u32,
        bucket_size: u32,
        pers_cache_size: u32,
        index_length: u32,
    },
    IncrementalStMan { max_cache_size: u32, bucket_size: u32, pers_cache_size: u32 },
    TiledColumnStMan {
        max_cache_size: u32,
        max_cache_size_64: i64,
        cube_shapes: Seq<Seq<i64>>,
        tile_shapes: Seq<Seq<i64>>,
        cell_shapes: Seq<Seq<i64>>,
        bucket_sizes: Seq<u64>,
        seqnr: u32,
    },
    TiledShapeStMan { default_tile_shape: Seq<i64>, seqnr: u32, hypercubes: Seq<CubeModel> },
    Unsupported(Seq<char>),
}

impl View for DmSpec {
    type V = DmSpecModel;

    open spec fn view(&self) -> DmSpecModel {
        match *self {
            DmSpec::StandardStMan { max_cache_size, bucket_size, pers_cache_size, index_length } =>
                DmSpecModel::StandardStMan {
                max_cache_size,
                bucket_size,
                pers_cache_size,
                index_length,
            },
            DmSpec::IncrementalStMan { max_cache_size, bucket_size, pers_cache_size } =>
                DmSpecModel::IncrementalStMan { max_cache_size, bucket_size, pers_cache_size },
            DmSpec::TiledColumnStMan {
                max_cache_size,
                max_cache_size_64,
                cube_shapes,
                tile_shapes,
                cell_shapes,
                bucket_sizes,
                seqnr,
            } => DmSpecModel::TiledColumnStMan {
                max_cache_size,
                max_cache_size_64,
                cube_shapes: shapes(cube_shapes@),
                tile_shapes: shapes(tile_shapes@),
                cell_shapes: shapes(cell_shapes@),
                bucket_sizes: bucket_sizes@,
                seqnr,
            },
            DmSpec::TiledShapeStMan { default_tile_shape, seqnr, hypercubes } =>
                DmSpecModel::TiledShapeStMan {
                default_tile_shape: default_tile_shape@,
                seqnr,
                hypercubes: cube_models(hypercubes@),
            },
            DmSpec::Unsupported(t) => DmSpecModel::Unsupported(t@),
        }
    }
}

/// What a [`DmInfo`] says.
#[verifier::ext_equal]
pub struct DmInfoModel {
    pub manager_type: Seq<char>,
    pub name: Seq<char>,
    pub seqnr: u32,
    pub spec: DmSpecModel,
    pub columns: Seq<Seq<char>>,
}

pub open spec fn texts(s: Seq<String>) -> Seq<Seq<char>> {
    s.map_values(|t: String| t@)
}

impl View for DmInfo {
    type V = DmInfoModel;

    open spec fn view(&self) -> DmInfoModel {
        DmInfoModel {
            manager_type: self.manager_type@,
            name: self.name@,
            seqnr: self.seqnr,
            spec: self.spec@,
            columns: texts(self.columns@),
        }
    }
}

/// Texts as JSON string literals.
pub open spec fn literals(s: Seq<Seq<char>>) -> Seq<Seq<char>> {
    s.map_values(|t: Seq<char>| text::json_text(t))
}

/// Numbers in decimal.
pub open spec fn decimals(s: Seq<i64>) -> Seq<Seq<char>> {
    s.map_values(|v: i64| text::decimal(v as int))
}

/// A list of texts as a JSON array.
pub open spec fn list_json(s: Seq<Seq<char>>) -> Seq<char> {
    "["@ + json::comma_joined(literals(s), s.len()) + "]"@
}

/// A list of numbers as a JSON array.
pub open spec fn ilist_json(s: Seq<i64>) -> Seq<char> {
    "["@ + json::comma_joined(decimals(s), s.len()) + "]"@
}

/// The entry of the hypercube `i`, counted from 1 in its key.
pub open spec fn cube_json(i: int, c: CubeModel) -> Seq<char> {
    "\"*"@ + text::decimal(i + 1) + "\":{\"CubeShape\":"@ + ilist_json(c.cube_shape)
        + ",\"TileShape\":"@ + ilist_json(c.tile_shape) + ",\"CellShape\":"@ + ilist_json(
        c.cell_shape,
    ) + ",\"BucketSize\":"@ + text::decimal(c.bucket_size as int) + ",\"ID\":{}}"@
}

/// The entries of the hypercubes.
pub open spec fn cube_texts(s: Seq<CubeModel>) -> Seq<Seq<char>> {
    Seq::new(s.len(), |i: int| cube_json(i, s[i]))
}

/// The hypercubes that four lists of shapes and sizes describe.
pub open spec fn zipped_cubes(
    cube_shapes: Seq<Seq<i64>>,
    tile_shapes: Seq<Seq<i64>>,
    cell_shapes: Seq<Seq<i64>>,
    bucket_sizes: Seq<u64>,
) -> Seq<CubeModel> {
    Seq::new(
        cube_shapes.len(),
        |i: int|
            CubeModel {
                cube_shape: cube_shapes[i],
                tile_shape: tile_shapes[i],
                cell_shape: cell_shapes[i],
                bucket_size: bucket_sizes[i],
            },
    )
}

/// A layout as a JSON object.
pub open spec fn spec_json(m: DmSpecModel) -> Seq<char> {
    match m {
        DmSpecModel::StandardStMan { max_cache_size, bucket_size, pers_cache_size, index_length } =>
            "{\"MaxCacheSize\":"@ + text::decimal(max_cache_size as int) + ",\"BUCKETSIZE\":"@
            + text::decimal(bucket_size as int) + ",\"PERSCACHESIZE\":"@ + text::decimal(
            pers_cache_size as int,
        ) + ",\"IndexLength\":"@ + text::decimal(index_length as int) + "}"@,
        DmSpecModel::IncrementalStMan { max_cache_size, bucket_size, pers_cache_size } =>
            "{\"MaxCacheSize\":"@ + text::decimal(max_cache_size as int) + ",\"BUCKETSIZE\":"@
            + text::decimal(bucket_size as int) + ",\"PERSCACHESIZE\":"@ + text::decimal(
            pers_cache_size as int,
        ) + "}"@,
        DmSpecModel::TiledColumnStMan {
            max_cache_size,
            max_cache_size_64,
            cube_shapes,
            tile_shapes,
            cell_shapes,
            bucket_sizes,
            seqnr,
        } => "{\"MaxCacheSize\":"@ + text::decimal(max_cache_size as int)
            + ",\"DEFAULTTILESHAPE\":[],\"MAXIMUMCACHESIZE\":"@ + text::decimal(
            max_cache_size_64 as int,
        ) + ",\"HYPERCUBES\":{"@ + json::comma_joined(
            cube_texts(zipped_cubes(cube_shapes, tile_shapes, cell_shapes, bucket_sizes)),
            cube_shapes.len(),
        ) + "},\"SEQNR\":"@ + text::decimal(seqnr as int) + "}"@,
        DmSpecModel::TiledShapeStMan { default_tile_shape, seqnr, hypercubes } =>
            "{\"MaxCacheSize\":0,\"DEFAULTTILESHAPE\":"@ + ilist_json(default_tile_shape)
            + ",\"MAXIMUMCACHESIZE\":0,\"HYPERCUBES\":{"@ + json::comma_joined(
            cube_texts(hypercubes),
            hypercubes.len(),
        ) + "},\"SEQNR\":"@ + text::decimal(seqnr as int) + ",\"IndexSize\":"@ + text::decimal(
            hypercubes.len() as int,
        ) + "}"@,
        DmSpecModel::Unsupported(t) => "{\"TYPE\":"@ + text::json_text(t) + "}"@,
    }
}

/// A data manager's information as a JSON object.
pub open spec fn info_json(m: DmInfoModel) -> Seq<char> {
    "{\"TYPE\":"@ + text::json_text(m.manager_type) + ",\"NAME\":"@ + text::json_text(m.name)
        + ",\"SEQNR\":"@ + text::decimal(m.seqnr as int) + ",\"SPEC\":"@ + spec_json(m.spec)
        + ",\"COLUMNS\":"@ + list_json(m.columns) + "}"@
}

/// Whether the lists of a layout go together: one entry for each cube.
pub open spec fn spec_aligned(m: DmSpecModel) -> bool {
    match m {
        DmSpecModel::TiledColumnStMan {
            cube_shapes,
            tile_shapes,
            cell_shapes,
            bucket_sizes,
            ..
        } => cube_shapes.len() <= tile_shapes.len() && cube_shapes.len() <= cell_shapes.len()
            && cube_shapes.len() <= bucket_sizes.len(),
        _ => true,
    }
}

fn push_list(out: &mut String, items: &Vec<String>)
    ensures
        final(out)@ == old(out)@ + list_json(texts(items@)),
{
    out.append("[");
    let ghost start = out@;
    let ghost all = literals(texts(items@));
    let mut i: usize = 0;
    assert(start + json::comma_joined(all, 0) =~= start);
    while i < items.len()
        invariant
            i <= items@.len(),
            all == literals(texts(items@)),
            out@ == start + json::comma_joined(all, i as nat),
        decreases items@.len() - i,
    {
        if i > 0 {
            out.append(",");
        }
        push_json_string(out, items[i].as_str());
        assert(texts(items@)[i as int] == items@[i as int]@);
        assert(all[i as int] == text::json_text(items@[i as int]@));
        assert(out@ =~= start + json::comma_joined(all, (i + 1) as nat));
        i = i + 1;
    }
    out.append("]");
    assert(out@ =~= old(out)@ + list_json(texts(items@)));
}

fn push_ilist(out: &mut String, items: &Vec<i64>)
    ensures
        final(out)@ == old(out)@ + ilist_json(items@),
{
    out.append("[");
    let ghost start = out@;
    let ghost all = decimals(items@);
    let mut i: usize = 0;
    assert(start + json::comma_joined(all, 0) =~= start);
    while i < items.len()
        invariant
            i <= items@.len(),
            all == decimals(items@),
            out@ == start + json::comma_joined(all, i as nat),
        decreases items@.len() - i,
    {
        if i > 0 {
            out.append(",");
        }
        push_i64(out, items[i]);
        assert(all[i as int] == text::decimal(items@[i as int] as int));
        assert(out@ =~= start + json::comma_joined(all, (i + 1) as nat));
        i = i + 1;
    }
    out.append("]");
    assert(out@ =~= old(out)@ + ilist_json(items@));
}

fn push_cube(
    out: &mut String,
    i: usize,
    cube_shape: &Vec<i64>,
    tile_shape: &Vec<i64>,
    cell_shape: &Vec<i64>,
    bucket_size: u64,
)
    requires
        i < usize::MAX,
    ensures
        final(out)@ == old(out)@ + cube_json(
            i as int,
            CubeModel {
                cube_shape: cube_shape@,
                tile_shape: tile_shape@,
                cell_shape: cell_shape@,
                bucket_size,
            },
        ),
{
    out.append("\"*");
    push_u64(out, (i + 1) as u64);
    out.append("\":{\"CubeShape\":");
    push_ilist(out, cube_shape);
    out.append(",\"TileShape\":");
    push_ilist(out, tile_shape);
    out.append(",\"CellShape\":");
    push_ilist(out, cell_shape);
    out.append(",\"BucketSize\":");
    push_u64(out, bucket_size);
    out.append(",\"ID\":{}}");
    assert(out@ =~= old(out)@ + cube_json(
        i as int,
        CubeModel {
            cube_shape: cube_shape@,
            tile_shape: tile_shape@,
            cell_shape: cell_shape@,
            bucket_size,
        },
    ));
}

fn push_number(out: &mut String, key: &str, v: u64)
    ensures
        final(out)@ == old(out)@ + (key@ + text::decimal(v as int)),
{
    out.append(key);
    push_u64(out, v);
    assert(out@ =~= old(out)@ + (key@ + text::decimal(v as int)));
}

impl DmSpec {
    /// The layout as a JSON object.
    pub fn to_json(&self) -> (r: String)
        requires
            spec_aligned(self@),
        ensures
            r@ == spec_json(self@),
    {
        let mut s: String = String::new();
        match self {
            DmSpec::StandardStMan { max_cache_size, bucket_size, pers_cache_size, index_length } => {
                push_number(&mut s, "{\"MaxCacheSize\":", *max_cache_size as u64);
                push_number(&mut s, ",\"BUCKETSIZE\":", *bucket_size as u64);
                push_number(&mut s, ",\"PERSCACHESIZE\":", *pers_cache_size as u64);
                push_number(&mut s, ",\"IndexLength\":", *index_length as u64);
                s.append("}");
            },
            DmSpec::IncrementalStMan { max_cache_size, bucket_size, pers_cache_size } => {
                push_number(&mut s, "{\"MaxCacheSize\":", *max_cache_size as u64);
                push_number(&mut s, ",\"BUCKETSIZE\":", *bucket_size as u64);
                push_number(&mut s, ",\"PERSCACHESIZE\":", *pers_cache_size as u64);
                s.append("}");
            },
            DmSpec::TiledColumnStMan {
                max_cache_size,
                max_cache_size_64,
                cube_shapes,
                tile_shapes,
                cell_shapes,
                bucket_sizes,
                seqnr,
            } => {
                push_number(&mut s, "{\"MaxCacheSize\":", *max_cache_size as u64);
                s.append(",\"DEFAULTTILESHAPE\":[],\"MAXIMUMCACHESIZE\":");
                push_i64(&mut s, *max_cache_size_64);
                s.append(",\"HYPERCUBES\":{");
                push_zipped(&mut s, cube_shapes, tile_shapes, cell_shapes, bucket_sizes);
                push_number(&mut s, "},\"SEQNR\":", *seqnr as u64);
                s.append("}");
            },
            DmSpec::TiledShapeStMan { default_tile_shape, seqnr, hypercubes } => {
                s.append("{\"MaxCacheSize\":0,\"DEFAULTTILESHAPE\":");
                push_ilist(&mut s, default_tile_shape);
                s.append(",\"MAXIMUMCACHESIZE\":0,\"HYPERCUBES\":{");
                push_cubes(&mut s, hypercubes);
                push_number(&mut s, "},\"SEQNR\":", *seqnr as u64);
                push_number(&mut s, ",\"IndexSize\":", hypercubes.len() as u64);
                s.append("}");
            },
            DmSpec::Unsupported(t) => {
                s.append("{\"TYPE\":");
                push_json_string(&mut s, t.as_str());
                s.append("}");
            },
        }
        assert(s@ =~= spec_json(self@));
        s
    }
}

fn push_zipped(
    out: &mut String,
    cube_shapes: &Vec<Vec<i64>>,
    tile_shapes: &Vec<Vec<i64>>,
    cell_shapes: &Vec<Vec<i64>>,
    bucket_sizes: &Vec<u64>,
)
    requires
        cube_shapes@.len() <= tile_shapes@.len(),
        cube_shapes@.len() <= cell_shapes@.len(),
        cube_shapes@.len() <= bucket_sizes@.len(),
    ensures
        final(out)@ == old(out)@ + json::comma_joined(
            cube_texts(
                zipped_cubes(
                    shapes(cube_shapes@),
                    shapes(tile_shapes@),
                    shapes(cell_shapes@),
                    bucket_sizes@,
                ),
            ),
            cube_shapes@.len(),
        ),
{
    let ghost start = out@;
    let ghost cubes = zipped_cubes(
        shapes(cube_shapes@),
        shapes(tile_shapes@),
        shapes(cell_shapes@),
        bucket_sizes@,
    );
    let ghost all = cube_texts(cubes);
    let mut i: usize = 0;
    assert(start + json::comma_joined(all, 0) =~= start);
    while i < cube_shapes.len()
        invariant
            i <= cube_shapes@.len(),
            cube_shapes@.len() <= tile_shapes@.len(),
            cube_shapes@.len() <= cell_shapes@.len(),
            cube_shapes@.len() <= bucket_sizes@.len(),
            cubes == zipped_cubes(
                shapes(cube_shapes@),
                shapes(tile_shapes@),
                shapes(cell_shapes@),
                bucket_sizes@,
            ),
            all == cube_texts(cubes),
            out@ == start + json::comma_joined(all, i as nat),
        decreases cube_shapes@.len() - i,
    {
        if i > 0 {
            out.append(",");
        }
        let ghost before = out@;
        push_cube(out, i, &cube_shapes[i], &tile_shapes[i], &cell_shapes[i], bucket_sizes[i]);
        assert(cubes[i as int] =~= CubeModel {
            cube_shape: cube_shapes@[i as int]@,
            tile_shape: tile_shapes@[i as int]@,
            cell_shape: cell_shapes@[i as int]@,
            bucket_size: bucket_sizes@[i as int],
        });
        assert(out@ == before + all[i as int]);
        assert(out@ =~= start + json::comma_joined(all, (i + 1) as nat));
        i = i + 1;
    }
}

fn push_cubes(out: &mut String, cubes: &Vec<TsmHypercube>)
    ensures
        final(out)@ == old(out)@ + json::comma_joined(
            cube_texts(cube_models(cubes@)),
            cubes@.len(),
        ),
{
    let ghost start = out@;
    let ghost all = cube_texts(cube_models(cubes@));
    let mut i: usize = 0;
    assert(start + json::comma_joined(all, 0) =~= start);
    while i < cubes.len()
        invariant
            i <= cubes@.len(),
            all == cube_texts(cube_models(cubes@)),
            out@ == start + json::comma_joined(all, i as nat),
        decreases cubes@.len() - i,
    {
        if i > 0 {
            out.append(",");
        }
        let ghost before = out@;
        let c = &cubes[i];
        push_cube(out, i, &c.cube_shape, &c.tile_shape, &c.cell_shape, c.bucket_size);
        assert(cube_models(cubes@)[i as int] == c@);
        assert(out@ == before + all[i as int]);
        assert(out@ =~= start + json::comma_joined(all, (i + 1) as nat));
        i = i + 1;
    }
}

impl DmInfo {
    /// The information as a JSON object: type, name, sequence number, layout
    /// and columns, in that order.
    pub fn to_json(&self) -> (r: String)
        requires
            spec_aligned(self@.spec),
        ensures
            r@ == info_json(self@),
    {
        let mut s: String = String::new();
        s.append("{\"TYPE\":");
        push_json_string(&mut s, self.manager_type.as_str());
        s.append(",\"NAME\":");
        push_json_string(&mut s, self.name.as_str());
        push_number(&mut s, ",\"SEQNR\":", self.seqnr as u64);
        s.append(",\"SPEC\":");
        let inner = self.spec.to_json();
        s.append(inner.as_str());
        s.append(",\"COLUMNS\":");
        push_list(&mut s, &self.columns);
        s.append("}");
        assert(s@ =~= info_json(self@));
        s
    }
}

/// A list is shown in brackets, its entries one behind the other in their
/// order, texts in quotes and numbers in decimal.
pub proof fn law_list_shown(s: Seq<Seq<char>>, n: Seq<i64>, i: int)
    ensures
        0 <= i < s.len() ==> list_json(s)[0] == '[' && list_json(s).last() == ']'
            && json::item_shown(
            list_json(s),
            1,
            Seq::new(s.len(), |k: int| text::json_text(s[k])),
            i,
        ),
        0 <= i < n.len() ==> ilist_json(n)[0] == '[' && ilist_json(n).last() == ']'
            && json::item_shown(
            ilist_json(n),
            1,
            Seq::new(n.len(), |k: int| text::decimal(n[k] as int)),
            i,
        ),
{
    reveal_strlit("[");
    reveal_strlit("]");
    assert(literals(s) =~= Seq::new(s.len(), |k: int| text::json_text(s[k])));
    assert(decimals(n) =~= Seq::new(n.len(), |k: int| text::decimal(n[k] as int)));
    if 0 <= i < s.len() {
        json::lemma_items("["@, literals(s), "]"@, i);
    }
    if 0 <= i < n.len() {
        json::lemma_items("["@, decimals(n), "]"@, i);
    }
}

/// A text stands in another one.
pub open spec fn shown(all: Seq<char>, s: Seq<char>) -> bool {
    exists|p: int| 0 <= p && p + s.len() <= all.len() && #[trigger] all.subrange(p, p + s.len()) == s
}

pub proof fn lemma_shown(a: Seq<char>, s: Seq<char>, b: Seq<char>)
    ensures
        shown(a + s + b, s),
{
    let p = a.len() as int;
    assert((a + s + b).subrange(p, p + s.len()) =~= s);
}

proof fn lemma_shown_within(all: Seq<char>, t: Seq<char>, s: Seq<char>)
    requires
        shown(all, t),
        shown(t, s),
    ensures
        shown(all, s),
{
    let p = choose|p: int|
        0 <= p && p + t.len() <= all.len() && #[trigger] all.subrange(p, p + t.len()) == t;
    let q = choose|q: int|
        0 <= q && q + s.len() <= t.len() && #[trigger] t.subrange(q, q + s.len()) == s;
    assert(all.subrange(p + q, p + q + s.len()) =~= s);
}

pub proof fn lemma_joined_shown(all: Seq<char>, s: Seq<Seq<char>>, i: int)
    requires
        0 <= i < s.len(),
        shown(all, json::comma_joined(s, s.len())),
    ensures
        shown(all, s[i]),
{
    let j = json::comma_joined(s, s.len());
    let none = Seq::<char>::empty();
    json::lemma_items(none, s, none, i);
    assert(none + j + none =~= j);
    let p = json::place(s, i as nat) as int;
    assert(j.subrange(p, p + s[i].len()) == s[i]);
    assert(shown(j, s[i]));
    lemma_shown_within(all, j, s[i]);
}

/// What is shown of a hypercube: its number, counted from 1, then its shapes in
/// this order, and the size of its buckets.
pub proof fn law_cube_shown(i: int, c: CubeModel)
    ensures
        ({
            let all = cube_json(i, c);
            &&& shown(all, "\"*"@ + text::decimal(i + 1) + "\":{"@)
            &&& shown(all, "\"CubeShape\":"@ + ilist_json(c.cube_shape))
            &&& shown(all, "\"TileShape\":"@ + ilist_json(c.tile_shape))
            &&& shown(all, "\"CellShape\":"@ + ilist_json(c.cell_shape))
            &&& shown(all, "\"BucketSize\":"@ + text::decimal(c.bucket_size as int))
        }),
{
    reveal_strlit("\"*");
    reveal_strlit("\":{");
    reveal_strlit("\":{\"CubeShape\":");
    reveal_strlit("\"CubeShape\":");
    reveal_strlit(",\"TileShape\":");
    reveal_strlit("\"TileShape\":");
    reveal_strlit(",\"CellShape\":");
    reveal_strlit("\"CellShape\":");
    reveal_strlit(",\"BucketSize\":");
    reveal_strlit("\"BucketSize\":");
    assert("\":{\"CubeShape\":"@ =~= "\":{"@ + "\"CubeShape\":"@);
    assert(",\"TileShape\":"@ =~= seq![','] + "\"TileShape\":"@);
    assert(",\"CellShape\":"@ =~= seq![','] + "\"CellShape\":"@);
    assert(",\"BucketSize\":"@ =~= seq![','] + "\"BucketSize\":"@);
    let all = cube_json(i, c);
    let n = "\"*"@ + text::decimal(i + 1) + "\":{"@;
    let s1 = "\"CubeShape\":"@ + ilist_json(c.cube_shape);
    let s2 = "\"TileShape\":"@ + ilist_json(c.tile_shape);
    let s3 = "\"CellShape\":"@ + ilist_json(c.cell_shape);
    let s4 = "\"BucketSize\":"@ + text::decimal(c.bucket_size as int);
    let end = ",\"ID\":{}}"@;
    let comma = seq![','];
    assert(all =~= n + s1 + comma + s2 + comma + s3 + comma + s4 + end);
    let none = Seq::<char>::empty();
    assert(all =~= none + n + (s1 + comma + s2 + comma + s3 + comma + s4 + end));
    lemma_shown(none, n, s1 + comma + s2 + comma + s3 + comma + s4 + end);
    assert(all =~= n + s1 + (comma + s2 + comma + s3 + comma + s4 + end));
    lemma_shown(n, s1, comma + s2 + comma + s3 + comma + s4 + end);
    assert(all =~= n + s1 + comma + s2 + (comma + s3 + comma + s4 + end));
    lemma_shown(n + s1 + comma, s2, comma + s3 + comma + s4 + end);
    assert(all =~= n + s1 + comma + s2 + comma + s3 + (comma + s4 + end));
    lemma_shown(n + s1 + comma + s2 + comma, s3, comma + s4 + end);
    lemma_shown(n + s1 + comma + s2 + comma + s3 + comma, s4, end);
}

/// Every hypercube of a tiled manager is shown, with its number.
pub proof fn law_cubes_shown(m: DmSpecModel, i: int)
    requires
        spec_aligned(m),
    ensures
        match m {
            DmSpecModel::TiledColumnStMan {
                cube_shapes,
                tile_shapes,
                cell_shapes,
                bucket_sizes,
                ..
            } => 0 <= i < cube_shapes.len() ==> shown(
                spec_json(m),
                cube_json(
                    i,
                    CubeModel {
                        cube_shape: cube_shapes[i],
                        tile_shape: tile_shapes[i],
                        cell_shape: cell_shapes[i],
                        bucket_size: bucket_sizes[i],
                    },
                ),
            ),
            DmSpecModel::TiledShapeStMan { hypercubes, .. } => 0 <= i < hypercubes.len() ==> shown(
                spec_json(m),
                cube_json(i, hypercubes[i]),
            ),
            _ => true,
        },
{
    match m {
        DmSpecModel::TiledColumnStMan {
            max_cache_size,
            max_cache_size_64,
            cube_shapes,
            tile_shapes,
            cell_shapes,
            bucket_sizes,
            seqnr,
        } => {
            if 0 <= i < cube_shapes.len() {
                let s = cube_texts(
                    zipped_cubes(cube_shapes, tile_shapes, cell_shapes, bucket_sizes),
                );
                let head = "{\"MaxCacheSize\":"@ + text::decimal(max_cache_size as int)
                    + ",\"DEFAULTTILESHAPE\":[],\"MAXIMUMCACHESIZE\":"@ + text::decimal(
                    max_cache_size_64 as int,
                ) + ",\"HYPERCUBES\":{"@;
                let tail = "},\"SEQNR\":"@ + text::decimal(seqnr as int) + "}"@;
                let j = json::comma_joined(s, s.len());
                assert(spec_json(m) =~= head + j + tail);
                lemma_shown(head, j, tail);
                lemma_joined_shown(spec_json(m), s, i);
            }
        },
        DmSpecModel::TiledShapeStMan { default_tile_shape, seqnr, hypercubes } => {
            if 0 <= i < hypercubes.len() {
                let s = cube_texts(hypercubes);
                let head = "{\"MaxCacheSize\":0,\"DEFAULTTILESHAPE\":"@ + ilist_json(
                    default_tile_shape,
                ) + ",\"MAXIMUMCACHESIZE\":0,\"HYPERCUBES\":{"@;
                let tail = "},\"SEQNR\":"@ + text::decimal(seqnr as int) + ",\"IndexSize\":"@
                    + text::decimal(hypercubes.len() as int) + "}"@;
                let j = json::comma_joined(s, s.len());
                assert(spec_json(m) =~= head + j + tail);
                lemma_shown(head, j, tail);
                lemma_joined_shown(spec_json(m), s, i);
            }
        },
        _ => {},
    }
}

/// What is shown of a data manager: its type, its name, its number, its layout
/// and its columns.
pub proof fn law_info_shown(m: DmInfoModel)
    ensures
        ({
            let all = info_json(m);
            &&& shown(all, "\"TYPE\":"@ + text::json_text(m.manager_type))
            &&& shown(all, "\"NAME\":"@ + text::json_text(m.name))
            &&& shown(all, "\"SEQNR\":"@ + text::decimal(m.seqnr as int))
            &&& shown(all, "\"SPEC\":"@ + spec_json(m.spec))
            &&& shown(all, "\"COLUMNS\":"@ + list_json(m.columns))
        }),
{
    reveal_strlit("{\"TYPE\":");
    reveal_strlit("\"TYPE\":");
    reveal_strlit(",\"NAME\":");
    reveal_strlit("\"NAME\":");
    reveal_strlit(",\"SEQNR\":");
    reveal_strlit("\"SEQNR\":");
    reveal_strlit(",\"SPEC\":");
    reveal_strlit("\"SPEC\":");
    reveal_strlit(",\"COLUMNS\":");
    reveal_strlit("\"COLUMNS\":");
    assert("{\"TYPE\":"@ =~= seq!['{'] + "\"TYPE\":"@);
    assert(",\"NAME\":"@ =~= seq![','] + "\"NAME\":"@);
    assert(",\"SEQNR\":"@ =~= seq![','] + "\"SEQNR\":"@);
    assert(",\"SPEC\":"@ =~= seq![','] + "\"SPEC\":"@);
    assert(",\"COLUMNS\":"@ =~= seq![','] + "\"COLUMNS\":"@);
    let all = info_json(m);
    let s0 = "\"TYPE\":"@ + text::json_text(m.manager_type);
    let s1 = "\"NAME\":"@ + text::json_text(m.name);
    let s2 = "\"SEQNR\":"@ + text::decimal(m.seqnr as int);
    let s3 = "\"SPEC\":"@ + spec_json(m.spec);
    let s4 = "\"COLUMNS\":"@ + list_json(m.columns);
    let open = seq!['{'];
    let comma = seq![','];
    let end = "}"@;
    assert(all =~= open + s0 + comma + s1 + comma + s2 + comma + s3 + comma + s4 + end);
    assert(all =~= open + s0 + (comma + s1 + comma + s2 + comma + s3 + comma + s4 + end));
    lemma_shown(open, s0, comma + s1 + comma + s2 + comma + s3 + comma + s4 + end);
    assert(all =~= open + s0 + comma + s1 + (comma + s2 + comma + s3 + comma + s4 + end));
    lemma_shown(open + s0 + comma, s1, comma + s2 + comma + s3 + comma + s4 + end);
    assert(all =~= open + s0 + comma + s1 + comma + s2 + (comma + s3 + comma + s4 + end));
    lemma_shown(open + s0 + comma + s1 + comma, s2, comma + s3 + comma + s4 + end);
    assert(all =~= open + s0 + comma + s1 + comma + s2 + comma + s3 + (comma + s4 + end));
    lemma_shown(open + s0 + comma + s1 + comma + s2 + comma, s3, comma + s4 + end);
    lemma_shown(open + s0 + comma + s1 + comma + s2 + comma + s3 + comma, s4, end);
}

} // verus!
