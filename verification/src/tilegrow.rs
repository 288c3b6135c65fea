//! Growing a tiled column: the shape of the cells of the grown column and the
//! length of its tile file.
//!
//! Tile `t` stays where it is, so the tile file is extended with zeros, the
//! default of every type, and the header is written anew.
use crate::dmlist;
use crate::dmlist::{TiledCube, TiledCubeModel};
use crate::record::DataType;
use crate::tabledesc::{ColumnDesc, ColumnModel};
use crate::text::text_eq;
use vstd::prelude::*;

verus! {

/// What the files of a tiled column say.
#[derive(Debug)]
pub struct TiledState {
    /// The number of rows.
    pub nrrow: u64,
    /// The type of the data manager.
    pub root_type: String,
    pub data_types: Vec<DataType>,
    pub cubes: Vec<TiledCube>,
    /// The tiles are laid out as a grown file lays them out.
    pub keeps_layout: bool,
}

/// What a [`TiledState`] says.
pub struct StateModel {
    pub nrrow: u64,
    pub root_type: Seq<char>,
    pub data_types: Seq<DataType>,
    pub cubes: Seq<TiledCubeModel>,
    pub keeps_layout: bool,
}

impl View for TiledState {
    type V = StateModel;

    open spec fn view(&self) -> StateModel {
        StateModel {
            nrrow: self.nrrow,
            root_type: self.root_type@,
            data_types: self.data_types@,
            cubes: dmlist::tiled_cubes(self.cubes@),
            keeps_layout: self.keeps_layout,
        }
    }
}

/// A shape with elements in every dimension.
pub open spec fn usable(s: Seq<i64>) -> bool {
    &&& s.len() > 0
    &&& forall|i: int| 0 <= i < s.len() ==> #[trigger] s[i] > 0
}

/// The cell shape of a tiled column: that of its data cube without the rows.
/// A TiledShapeStMan has its data in the second cube.
pub open spec fn shape_on_disk(m: StateModel, manager_type: Seq<char>) -> Option<Seq<i64>> {
    let i: int = if manager_type == "TiledShapeStMan"@ {
        1
    } else {
        0
    };
    if i < m.cubes.len() && m.cubes[i].cube_shape.len() > 0 {
        Some(m.cubes[i].cube_shape.drop_last())
    } else {
        None
    }
}

/// `s` where it is usable, else `other`.
pub open spec fn usable_or(s: Option<Seq<i64>>, other: Option<Seq<i64>>) -> Option<Seq<i64>> {
    match s {
        Some(d) => if usable(d) {
            Some(d)
        } else {
            other
        },
        None => other,
    }
}

/// The cell shape of a grown column, where the column can be grown from `old`
/// rows. A column with rows keeps its shape. An empty one has no rows to keep:
/// it gets the described shape, else that of the cells being written, else
/// the one on disk.
pub open spec fn grown_shape(
    m: StateModel,
    manager_type: Seq<char>,
    cd: ColumnModel,
    old: u64,
    pending: Option<Seq<i64>>,
) -> Option<Seq<i64>> {
    if m.nrrow != old || m.root_type != manager_type || m.data_types != seq![cd.data_type] {
        None
    } else if old > 0 {
        if m.keeps_layout {
            shape_on_disk(m, manager_type)
        } else {
            None
        }
    } else {
        usable_or(
            cd.shape,
            usable_or(pending, usable_or(shape_on_disk(m, manager_type), None)),
        )
    }
}

fn is_usable(s: &Vec<i64>) -> (r: bool)
    ensures
        r == usable(s@),
{
    let mut i: usize = 0;
    while i < s.len()
        invariant
            i <= s@.len(),
            forall|k: int| 0 <= k < i ==> #[trigger] s@[k] > 0,
        decreases s@.len() - i,
    {
        if s[i] <= 0 {
            return false;
        }
        i = i + 1;
    }
    s.len() > 0
}

pub open spec fn shape_view(s: Option<Vec<i64>>) -> Option<Seq<i64>> {
    match s {
        Some(v) => Some(v@),
        None => None,
    }
}

fn disk_shape(state: &TiledState, manager_type: &str) -> (r: Option<Vec<i64>>)
    ensures
        shape_view(r) == shape_on_disk(state@, manager_type@),
{
    let i: usize = if text_eq(manager_type, "TiledShapeStMan") {
        1
    } else {
        0
    };
    if i >= state.cubes.len() {
        return None;
    }
    assert(state@.cubes[i as int] == state.cubes@[i as int]@);
    let shape = &state.cubes[i].cube_shape;
    let n: usize = shape.len();
    if n == 0 {
        return None;
    }
    let out = vstd::slice::slice_to_vec(vstd::slice::slice_subrange(shape.as_slice(), 0, n - 1));
    assert(out@ =~= shape@.drop_last());
    Some(out)
}

/// The cell shape of a tiled column grown from `old` rows (in file order), or
/// none where it cannot be grown in place.
pub fn grown_cell_shape(
    state: &TiledState,
    manager_type: &str,
    cd: &ColumnDesc,
    old: u64,
    pending: Option<Vec<i64>>,
) -> (r: Option<Vec<i64>>)
    ensures
        shape_view(r) == grown_shape(
            state@,
            manager_type@,
            cd@,
            old,
            shape_view(pending),
        ),
{
    if state.nrrow != old || !text_eq(state.root_type.as_str(), manager_type)
        || state.data_types.len() != 1 {
        return None;
    }
    if state.data_types[0] != cd.data_type {
        assert(state@.data_types[0] != seq![cd@.data_type][0]);
        return None;
    }
    assert(state@.data_types =~= seq![cd@.data_type]);
    let on_disk = disk_shape(state, manager_type);
    if old > 0 {
        if state.keeps_layout {
            return on_disk;
        }
        return None;
    }
    if let Some(s) = &cd.shape {
        if is_usable(s) {
            return Some(s.clone());
        }
    }
    if let Some(s) = pending {
        if is_usable(&s) {
            return Some(s);
        }
    }
    if let Some(s) = on_disk {
        if is_usable(&s) {
            return Some(s);
        }
    }
    None
}

/// The length of a tile file of `have` bytes once it is grown to hold `tiles`
/// bytes: nothing of the file of an empty column is kept, and no file is
/// shortened otherwise.
pub fn grown_tile_length(have: u64, tiles: u64, old: u64) -> (r: u64)
    ensures
        r == if old > 0 && have > tiles {
            have
        } else {
            tiles
        },
{
    if old > 0 && have > tiles {
        have
    } else {
        tiles
    }
}

/// A tiled column with rows is grown only with the cell shape of its data
/// cube, whose last dimension counts the rows, and only where its tiles stay.
pub proof fn law_grown_shape_kept(
    m: StateModel,
    manager_type: Seq<char>,
    cd: ColumnModel,
    old: u64,
    pending: Option<Seq<i64>>,
)
    requires
        old > 0,
    ensures
        ({
            let i: int = if manager_type == "TiledShapeStMan"@ {
                1
            } else {
                0
            };
            let agrees = m.nrrow == old && m.root_type == manager_type && m.data_types.len() == 1
                && m.data_types[0] == cd.data_type;
            let r = grown_shape(m, manager_type, cd, old, pending);
            &&& r is Some == (agrees && m.keeps_layout && i < m.cubes.len()
                && m.cubes[i].cube_shape.len() > 0)
            &&& r matches Some(s) ==> s.len() + 1 == m.cubes[i].cube_shape.len() && forall|k: int|
                0 <= k < s.len() ==> #[trigger] s[k] == m.cubes[i].cube_shape[k]
        }),
{
    assert(m.data_types.len() == 1 && m.data_types[0] == cd.data_type ==> m.data_types =~= seq![
        cd.data_type,
    ]);
    assert(m.data_types == seq![cd.data_type] ==> m.data_types.len() == 1 && m.data_types[0]
        == cd.data_type);
}

/// A tiled column without rows is grown with a shape of positive dimensions:
/// the described one where it is such a shape, else that of the cells being
/// written.
pub proof fn law_grown_shape_new(
    m: StateModel,
    manager_type: Seq<char>,
    cd: ColumnModel,
    pending: Option<Seq<i64>>,
)
    ensures
        ({
            let agrees = m.nrrow == 0 && m.root_type == manager_type && m.data_types.len() == 1
                && m.data_types[0] == cd.data_type;
            let r = grown_shape(m, manager_type, cd, 0, pending);
            &&& r matches Some(s) ==> agrees && s.len() > 0 && forall|k: int|
                0 <= k < s.len() ==> #[trigger] s[k] > 0
            &&& agrees && cd.shape is Some && usable(cd.shape->0) ==> r == cd.shape
            &&& agrees && !(cd.shape is Some && usable(cd.shape->0)) && pending is Some && usable(
                pending->0,
            ) ==> r == pending
        }),
{
    assert(m.data_types.len() == 1 && m.data_types[0] == cd.data_type ==> m.data_types =~= seq![
        cd.data_type,
    ]);
    assert(m.data_types == seq![cd.data_type] ==> m.data_types.len() == 1 && m.data_types[0]
        == cd.data_type);
}

} // verus!
