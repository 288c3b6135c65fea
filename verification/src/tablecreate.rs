//! Creating a table: its columns are bound to data managers, each manager's
//! files are built, and `table.dat` describes them.
use crate::bytes;
use crate::bytes::length32;
use crate::columnset;
use crate::columnset::{write_standard_stman, DmBlob, DmBlobModel};
use crate::ismdata;
use crate::ismdata::build_ism_data;
use crate::ismout;
use crate::ismout::write_ism_blob;
use crate::json::FloatTexts;
use crate::record;
use crate::record::{RecordValue, ValueModel};
use crate::ssmdata;
use crate::ssmdata::{build_ssm_data, complain, CellContent, Supplied};
use crate::table;
use crate::table::{build_table_dat, CreateFault, TableCreateError};
use crate::tabledesc;
use crate::tabledesc::{ColumnDesc, ColumnModel, TableDesc, TableDescModel};
use crate::tableread;
use crate::tableread::tiled;
use crate::text;
use crate::text::{push_u64, text_eq};
use crate::tiled;
use crate::tiled::tiled_column;
use vstd::prelude::*;

verus! {

/// A data manager to be created.
#[derive(Debug)]
pub struct ManagerSlot {
    pub manager_type: String,
    pub group: String,
    pub name: String,
}

/// What a [`ManagerSlot`] says.
#[verifier::ext_equal]
pub struct SlotModel {
    pub manager_type: Seq<char>,
    pub group: Seq<char>,
    pub name: Seq<char>,
}

impl View for ManagerSlot {
    type V = SlotModel;

    open spec fn view(&self) -> SlotModel {
        SlotModel { manager_type: self.manager_type@, group: self.group@, name: self.name@ }
    }
}

pub open spec fn slot_models(s: Seq<ManagerSlot>) -> Seq<SlotModel> {
    s.map_values(|m: ManagerSlot| m@)
}

/// The group of a column: the one it names, or else its manager's type.
pub open spec fn group_of(cd: ColumnModel) -> Seq<char> {
    if cd.data_manager_group.len() == 0 {
        cd.data_manager_type
    } else {
        cd.data_manager_group
    }
}

/// The place, from `i` on, of the first manager of a type and a group.
pub open spec fn find_slot(
    slots: Seq<SlotModel>,
    manager_type: Seq<char>,
    group: Seq<char>,
    i: int,
) -> Option<int>
    decreases slots.len() - i,
{
    if i < 0 || i >= slots.len() {
        None
    } else if slots[i].manager_type == manager_type && slots[i].group == group {
        Some(i)
    } else {
        find_slot(slots, manager_type, group, i + 1)
    }
}

/// How many of the first `n` managers belong to a group.
pub open spec fn group_count(slots: Seq<SlotModel>, group: Seq<char>, n: nat) -> nat
    decreases n,
{
    if n == 0 {
        0
    } else {
        group_count(slots, group, (n - 1) as nat) + if slots[n - 1].group == group {
            1nat
        } else {
            0nat
        }
    }
}

/// The name of a group's manager number `count`: the first has the group's
/// name, the others a number after it.
pub open spec fn numbered(group: Seq<char>, count: nat) -> Seq<char> {
    if count == 0 {
        group
    } else {
        group + "_"@ + text::decimal(count as int)
    }
}

/// The managers with the one that a column needs.
pub open spec fn with_slot(slots: Seq<SlotModel>, cd: ColumnModel) -> Seq<SlotModel> {
    let group = group_of(cd);
    match find_slot(slots, cd.data_manager_type, group, 0) {
        Some(_) => slots,
        None => slots.push(
            SlotModel {
                manager_type: cd.data_manager_type,
                group,
                name: numbered(group, group_count(slots, group, slots.len())),
            },
        ),
    }
}

/// The managers of the first `n` columns, in the order of first use.
pub open spec fn slots_of(cols: Seq<ColumnModel>, n: nat) -> Seq<SlotModel>
    decreases n,
{
    if n == 0 {
        Seq::empty()
    } else {
        with_slot(slots_of(cols, (n - 1) as nat), cols[n - 1])
    }
}

/// The place of the manager of the column `c`.
pub open spec fn slot_of(cols: Seq<ColumnModel>, c: int) -> int {
    let before = slots_of(cols, c as nat);
    match find_slot(before, cols[c].data_manager_type, group_of(cols[c]), 0) {
        Some(i) => i,
        None => before.len() as int,
    }
}

/// The sequence numbers of the columns' managers.
pub open spec fn sequence_numbers(cols: Seq<ColumnModel>) -> Seq<u32> {
    Seq::new(cols.len(), |c: int| bytes::low32(slot_of(cols, c)))
}

/// Those of the first `n` columns that are bound to the manager `dm`.
pub open spec fn members(seqs: Seq<u32>, dm: int, n: nat) -> Seq<usize>
    decreases n,
{
    if n == 0 {
        Seq::empty()
    } else {
        let before = members(seqs, dm, (n - 1) as nat);
        if seqs[n - 1] == dm {
            before.push((n - 1) as usize)
        } else {
            before
        }
    }
}

/// The files of a tiled data manager, laid out elsewhere.
#[derive(Debug)]
pub struct TiledImage {
    /// The data manager's sequence number.
    pub manager: u32,
    pub header: Vec<u8>,
    pub tile: Vec<u8>,
    /// The number of the tile file.
    pub file_seq: u32,
}

/// What a [`TiledImage`] holds.
pub struct TiledImageModel {
    pub manager: u32,
    pub header: Seq<u8>,
    pub tile: Seq<u8>,
    pub file_seq: u32,
}

impl View for TiledImage {
    type V = TiledImageModel;

    open spec fn view(&self) -> TiledImageModel {
        TiledImageModel {
            manager: self.manager,
            header: self.header@,
            tile: self.tile@,
            file_seq: self.file_seq,
        }
    }
}

pub open spec fn image_models(s: Seq<TiledImage>) -> Seq<TiledImageModel> {
    s.map_values(|i: TiledImage| i@)
}

/// The first image, from `i` on, of the manager `seq`.
pub open spec fn image_of(s: Seq<TiledImageModel>, seq: u32, i: int) -> Option<TiledImageModel>
    decreases s.len() - i,
{
    if i < 0 || i >= s.len() {
        None
    } else if s[i].manager == seq {
        Some(s[i])
    } else {
        image_of(s, seq, i + 1)
    }
}

/// The files of one data manager.
#[verifier::ext_equal]
pub struct BuiltModel {
    pub blob: DmBlobModel,
    pub data: Seq<u8>,
    pub index: Option<Seq<u8>>,
    pub tile: Option<(u32, Seq<u8>)>,
}

/// The files of the manager `dm`, which holds the columns `cols`, or why it
/// cannot be stored.
#[verifier::opaque]
pub open spec fn manager_built(
    nrow: u64,
    desc: TableDescModel,
    values: Seq<Seq<ValueModel>>,
    slot: SlotModel,
    dm: int,
    cols: Seq<usize>,
    t: Supplied,
    images: Seq<TiledImageModel>,
) -> Result<BuiltModel, CreateFault> {
    let seq = bytes::low32(dm);
    if slot.manager_type == "StandardStMan"@ {
        match ssmdata::ssm_data(false, nrow, slot.name, desc, values, cols, t) {
            Err(f) => Err(f),
            Ok(out) => Ok(
                BuiltModel {
                    blob: DmBlobModel {
                        manager_type: slot.manager_type,
                        sequence_nr: seq,
                        blob: columnset::standard_bytes(out.manager),
                    },
                    data: out.file,
                    index: out.f0i,
                    tile: None,
                },
            ),
        }
    } else if slot.manager_type == "IncrementalStMan"@ {
        match ismdata::ism_data(false, nrow, slot.name, desc, values, cols) {
            Err(f) => Err(f),
            Ok(file) => Ok(
                BuiltModel {
                    blob: DmBlobModel {
                        manager_type: slot.manager_type,
                        sequence_nr: seq,
                        blob: ismout::blob_bytes(slot.name),
                    },
                    data: file,
                    index: None,
                    tile: None,
                },
            ),
        }
    } else if tableread::is_tiled(slot.manager_type) {
        match tiled::tiled_shape(slot.manager_type, desc, values, cols) {
            Err(f) => Err(f),
            Ok(_) => match image_of(images, seq, 0) {
                None => Err(
                    CreateFault::Io(
                        "encode "@ + ssmdata::complaint(
                            desc.name,
                            desc.columns[cols[0] as int].name,
                            ": no tiles are laid out"@,
                        ),
                    ),
                ),
                Some(image) => Ok(
                    BuiltModel {
                        blob: DmBlobModel {
                            manager_type: slot.manager_type,
                            sequence_nr: seq,
                            blob: Seq::empty(),
                        },
                        data: image.header,
                        index: None,
                        tile: Some((image.file_seq, image.tile)),
                    },
                ),
            },
        }
    } else {
        Err(CreateFault::Io("unsupported data-manager type "@ + slot.manager_type))
    }
}

/// The files of the managers from `dm` on, after `acc`.
pub open spec fn all_built(
    nrow: u64,
    desc: TableDescModel,
    values: Seq<Seq<ValueModel>>,
    t: Supplied,
    images: Seq<TiledImageModel>,
    dm: int,
    acc: Seq<BuiltModel>,
) -> Result<Seq<BuiltModel>, CreateFault>
    decreases slots_of(desc.columns, desc.columns.len()).len() - dm,
{
    let slots = slots_of(desc.columns, desc.columns.len());
    if dm < 0 || dm >= slots.len() {
        Ok(acc)
    } else {
        match manager_built(
            nrow,
            desc,
            values,
            slots[dm],
            dm,
            members(sequence_numbers(desc.columns), dm, desc.columns.len()),
            t,
            images,
        ) {
            Err(f) => Err(f),
            Ok(b) => all_built(nrow, desc, values, t, images, dm + 1, acc.push(b)),
        }
    }
}

/// The name of a data file: `table.f` and the manager's number.
pub open spec fn data_name(dm: int) -> Seq<char> {
    "table.f"@ + text::decimal(bytes::low32(dm) as int)
}

/// A file and its name.
pub type NamedBytes = (Seq<char>, Seq<u8>);

/// The data files of the first `n` managers.
pub open spec fn data_files(s: Seq<BuiltModel>, n: nat) -> Seq<NamedBytes> {
    Seq::new(n, |dm: int| (data_name(dm), s[dm].data))
}

/// The array index files of the first `n` managers.
pub open spec fn index_files(s: Seq<BuiltModel>, n: nat) -> Seq<NamedBytes>
    decreases n,
{
    if n == 0 {
        Seq::empty()
    } else {
        let before = index_files(s, (n - 1) as nat);
        match s[n - 1].index {
            Some(b) => before.push((data_name(n - 1) + "i"@, b)),
            None => before,
        }
    }
}

/// The tile files of the first `n` managers.
pub open spec fn tile_files(s: Seq<BuiltModel>, n: nat) -> Seq<NamedBytes>
    decreases n,
{
    if n == 0 {
        Seq::empty()
    } else {
        let before = tile_files(s, (n - 1) as nat);
        match s[n - 1].tile {
            Some((seq, b)) => before.push(
                (data_name(n - 1) + "_TSM"@ + text::decimal(seq as int), b),
            ),
            None => before,
        }
    }
}

/// The descriptions of the managers.
pub open spec fn blobs(s: Seq<BuiltModel>) -> Seq<DmBlobModel> {
    s.map_values(|b: BuiltModel| b.blob)
}

/// The number of rows that lists of values have: that of the first.
pub open spec fn row_count(values: Seq<Seq<ValueModel>>) -> u64 {
    if values.len() == 0 {
        0
    } else {
        values[0].len() as u64
    }
}

/// The first list, from `i` on, that is not `nrow` long.
pub open spec fn odd_list(values: Seq<Seq<ValueModel>>, nrow: u64, i: int) -> Option<int>
    decreases values.len() - i,
{
    if i < 0 || i >= values.len() {
        None
    } else if values[i].len() != nrow {
        Some(i)
    } else {
        odd_list(values, nrow, i + 1)
    }
}

/// The contents of `table.dat` and of the files beside it, by name.
#[verifier::ext_equal]
pub struct FilesModel {
    pub dat: Seq<u8>,
    pub files: Seq<NamedBytes>,
}

/// The files of a new table, or why there is none.
#[verifier::opaque]
pub open spec fn created(
    desc: TableDescModel,
    values: Seq<Seq<ValueModel>>,
    t: Supplied,
    images: Seq<TiledImageModel>,
) -> Result<FilesModel, CreateFault> {
    let nrow = row_count(values);
    if desc.columns.len() != values.len() {
        Err(
            CreateFault::MissingValues(
                text::decimal(desc.columns.len() as int) + " columns, "@ + text::decimal(
                    values.len() as int,
                ) + " value lists"@,
            ),
        )
    } else {
        match odd_list(values, nrow, 0) {
            Some(c) => Err(
                CreateFault::RowCountMismatch {
                    got: values[c].len() as int,
                    want: nrow,
                    column: desc.columns[c].name,
                },
            ),
            None => match all_built(nrow, desc, values, t, images, 0, Seq::empty()) {
                Err(f) => Err(f),
                Ok(s) => match table::table_dat_bytes(
                    false,
                    nrow,
                    desc,
                    blobs(s),
                    sequence_numbers(desc.columns),
                ) {
                    Err(f) => Err(CreateFault::Record(f)),
                    Ok(dat) => Ok(
                        FilesModel {
                            dat,
                            files: data_files(s, s.len()) + index_files(s, s.len()) + tile_files(
                                s,
                                s.len(),
                            ),
                        },
                    ),
                },
            },
        }
    }
}

fn group_name(cd: &ColumnDesc) -> (r: String)
    ensures
        r@ == group_of(cd@),
{
    let none: bool = text_eq(cd.data_manager_group.as_str(), "");
    proof {
        reveal_strlit("");
        assert(none == (cd@.data_manager_group.len() == 0)) by {
            if cd@.data_manager_group.len() == 0 {
                assert(cd@.data_manager_group =~= ""@);
            }
        }
    }
    if none {
        cd.data_manager_type.clone()
    } else {
        cd.data_manager_group.clone()
    }
}

fn slot_position(slots: &Vec<ManagerSlot>, manager_type: &str, group: &str) -> (r: Option<usize>)
    ensures
        match r {
            Some(i) => i < slots@.len() && find_slot(
                slot_models(slots@),
                manager_type@,
                group@,
                0,
            ) == Some(i as int),
            None => find_slot(slot_models(slots@), manager_type@, group@, 0) is None,
        },
{
    let ghost ms = slot_models(slots@);
    let mut i: usize = 0;
    while i < slots.len()
        invariant
            i <= slots@.len(),
            ms == slot_models(slots@),
            find_slot(ms, manager_type@, group@, 0) == find_slot(
                ms,
                manager_type@,
                group@,
                i as int,
            ),
        decreases slots@.len() - i,
    {
        assert(ms[i as int] == slots@[i as int]@);
        if text_eq(slots[i].manager_type.as_str(), manager_type) && text_eq(
            slots[i].group.as_str(),
            group,
        ) {
            return Some(i);
        }
        i = i + 1;
    }
    None
}

fn slot_name(slots: &Vec<ManagerSlot>, group: &str) -> (r: String)
    ensures
        r@ == numbered(
            group@,
            group_count(slot_models(slots@), group@, slots@.len()),
        ),
{
    let ghost ms = slot_models(slots@);
    let mut count: usize = 0;
    let mut i: usize = 0;
    while i < slots.len()
        invariant
            i <= slots@.len(),
            ms == slot_models(slots@),
            count <= i,
            count == group_count(ms, group@, i as nat),
        decreases slots@.len() - i,
    {
        assert(ms[i as int] == slots@[i as int]@);
        if text_eq(slots[i].group.as_str(), group) {
            count = count + 1;
        }
        i = i + 1;
    }
    let mut s: String = group.to_owned();
    if count > 0 {
        s.append("_");
        push_u64(&mut s, count as u64);
    }
    s
}

/// The data managers that the columns need, in the order of first use, and
/// the place of each column's manager.
///
/// The manager's name is the group (or the type where no group is given); a
/// name that is taken gets a number.
pub fn assign_managers(columns: &Vec<ColumnDesc>) -> (r: (Vec<ManagerSlot>, Vec<u32>))
    ensures
        slot_models(r.0@) == slots_of(tabledesc::column_models(columns@), columns@.len()),
        r.1@ == sequence_numbers(tabledesc::column_models(columns@)),
{
    let ghost cols = tabledesc::column_models(columns@);
    let mut slots: Vec<ManagerSlot> = Vec::new();
    let mut seqs: Vec<u32> = Vec::new();
    assert(slot_models(slots@) =~= Seq::<SlotModel>::empty());
    let mut c: usize = 0;
    while c < columns.len()
        invariant
            c <= columns@.len(),
            cols == tabledesc::column_models(columns@),
            slot_models(slots@) == slots_of(cols, c as nat),
            seqs@.len() == c,
            forall|k: int|
                0 <= k < c ==> #[trigger] seqs@[k] == bytes::low32(slot_of(cols, k)),
        decreases columns@.len() - c,
    {
        let cd = &columns[c];
        assert(cols[c as int] == cd@);
        let group = group_name(cd);
        assert(slot_models(slots@).len() == slots@.len());
        match slot_position(&slots, cd.data_manager_type.as_str(), group.as_str()) {
            Some(i) => {
                seqs.push(length32(i));
            },
            None => {
                let ghost before = slots@;
                seqs.push(length32(slots.len()));
                let name = slot_name(&slots, group.as_str());
                let made = ManagerSlot { manager_type: cd.data_manager_type.clone(), group, name };
                slots.push(made);
                assert(slot_models(slots@) =~= slot_models(before).push(made@));
            },
        }
        c = c + 1;
    }
    assert(seqs@ =~= sequence_numbers(cols));
    (slots, seqs)
}

pub(crate) fn member_list(seqs: &Vec<u32>, dm: usize) -> (r: Vec<usize>)
    ensures
        r@ == members(seqs@, dm as int, seqs@.len()),
        forall|k: int| 0 <= k < r@.len() ==> (#[trigger] r@[k]) < seqs@.len(),
{
    let mut out: Vec<usize> = Vec::new();
    assert(out@ =~= Seq::<usize>::empty());
    let mut c: usize = 0;
    while c < seqs.len()
        invariant
            c <= seqs@.len(),
            out@ == members(seqs@, dm as int, c as nat),
            forall|k: int| 0 <= k < out@.len() ==> (#[trigger] out@[k]) < seqs@.len(),
        decreases seqs@.len() - c,
    {
        if seqs[c] as u64 == dm as u64 {
            out.push(c);
        }
        c = c + 1;
    }
    out
}

/// The files of one data manager.
#[derive(Debug)]
struct Built {
    blob: DmBlob,
    data: Vec<u8>,
    index: Option<Vec<u8>>,
    tile: Option<(u32, Vec<u8>)>,
}

impl View for Built {
    type V = BuiltModel;

    closed spec fn view(&self) -> BuiltModel {
        BuiltModel {
            blob: self.blob@,
            data: self.data@,
            index: match self.index {
                Some(b) => Some(b@),
                None => None,
            },
            tile: match self.tile {
                Some((n, b)) => Some((n, b@)),
                None => None,
            },
        }
    }
}

spec fn built_models(s: Seq<Built>) -> Seq<BuiltModel> {
    s.map_values(|b: Built| b@)
}

pub(crate) fn find_image(images: &[TiledImage], seq: u32) -> (r: Option<usize>)
    ensures
        match r {
            Some(i) => i < images@.len() && image_of(image_models(images@), seq, 0) == Some(
                images@[i as int]@,
            ),
            None => image_of(image_models(images@), seq, 0) is None,
        },
{
    let ghost all = image_models(images@);
    let mut i: usize = 0;
    while i < images.len()
        invariant
            i <= images@.len(),
            all == image_models(images@),
            image_of(all, seq, 0) == image_of(all, seq, i as int),
        decreases images@.len() - i,
    {
        assert(all[i as int] == images@[i as int]@);
        if images[i].manager == seq {
            return Some(i);
        }
        i = i + 1;
    }
    None
}

/// Every value is one that its column's encoder takes as it is.
pub open spec fn all_ready(desc: TableDescModel, values: Seq<Seq<ValueModel>>) -> bool {
    forall|c: int, r: int|
        0 <= c < desc.columns.len() && c < values.len() && 0 <= r < values[c].len()
            ==> ssmdata::value_ready(desc.columns[c], #[trigger] values[c][r])
}

fn build_manager(
    nrow: u64,
    desc: &TableDesc,
    values: &[Vec<RecordValue>],
    slot: &ManagerSlot,
    dm: usize,
    cols: &Vec<usize>,
    numbers: &FloatTexts,
    contents: &[CellContent],
    images: &[TiledImage],
) -> (res: Result<Built, TableCreateError>)
    requires
        ssmdata::values_ready(desc@, ssmdata::value_lists(values@), cols@, nrow),
        values@.len() == desc@.columns.len(),
    ensures
        match manager_built(
            nrow,
            desc@,
            ssmdata::value_lists(values@),
            slot@,
            dm as int,
            cols@,
            ssmdata::supplied(numbers, contents@),
            image_models(images@),
        ) {
            Ok(b) => res is Ok && res->Ok_0@ == b,
            Err(f) => res is Err && res->Err_0@ == f,
        },
{
    proof {
        reveal(manager_built);
    }
    let seq: u32 = length32(dm);
    if text_eq(slot.manager_type.as_str(), "StandardStMan") {
        let out = build_ssm_data(
            false,
            nrow,
            slot.name.as_str(),
            desc,
            values,
            cols.as_slice(),
            numbers,
            contents,
        )?;
        let blob = write_standard_stman(&out.manager);
        Ok(
            Built {
                blob: DmBlob { manager_type: slot.manager_type.clone(), sequence_nr: seq, blob },
                data: out.file,
                index: out.f0i,
                tile: None,
            },
        )
    } else if text_eq(slot.manager_type.as_str(), "IncrementalStMan") {
        let data = build_ism_data(
            false,
            nrow,
            slot.name.as_str(),
            desc,
            values,
            cols.as_slice(),
        )?;
        let blob = write_ism_blob(slot.name.as_str());
        Ok(
            Built {
                blob: DmBlob { manager_type: slot.manager_type.clone(), sequence_nr: seq, blob },
                data,
                index: None,
                tile: None,
            },
        )
    } else if tiled(slot.manager_type.as_str()) {
        let _shape = tiled_column(slot.manager_type.as_str(), desc, values, cols.as_slice())?;
        match find_image(images, seq) {
            None => {
                let c: usize = cols[0];
                assert(desc@.columns[c as int] == desc.columns@[c as int]@);
                let what = complain(
                    desc.name.as_str(),
                    desc.columns[c].name.as_str(),
                    ": no tiles are laid out",
                );
                let mut s: String = "encode ".to_owned();
                s.append(what.as_str());
                Err(TableCreateError::Io(s))
            },
            Some(i) => {
                let none: Vec<u8> = Vec::new();
                assert(none@ =~= Seq::<u8>::empty());
                Ok(
                    Built {
                        blob: DmBlob {
                            manager_type: slot.manager_type.clone(),
                            sequence_nr: seq,
                            blob: none,
                        },
                        data: vstd::slice::slice_to_vec(images[i].header.as_slice()),
                        index: None,
                        tile: Some(
                            (
                                images[i].file_seq,
                                vstd::slice::slice_to_vec(images[i].tile.as_slice()),
                            ),
                        ),
                    },
                )
            },
        }
    } else {
        let mut s: String = "unsupported data-manager type ".to_owned();
        s.append(slot.manager_type.as_str());
        Err(TableCreateError::Io(s))
    }
}

/// A file of a table.
#[derive(Debug)]
pub struct NamedFile {
    pub name: String,
    pub bytes: Vec<u8>,
}

/// The files of a table: `table.dat`, and the others in the order in which
/// they are written.
#[derive(Debug)]
pub struct TableFiles {
    pub dat: Vec<u8>,
    pub files: Vec<NamedFile>,
}

pub open spec fn named_models(s: Seq<NamedFile>) -> Seq<NamedBytes> {
    s.map_values(|f: NamedFile| (f.name@, f.bytes@))
}

impl View for TableFiles {
    type V = FilesModel;

    open spec fn view(&self) -> FilesModel {
        FilesModel { dat: self.dat@, files: named_models(self.files@) }
    }
}

fn file_name(dm: usize) -> (r: String)
    ensures
        r@ == data_name(dm as int),
{
    let mut s: String = "table.f".to_owned();
    push_u64(&mut s, length32(dm) as u64);
    s
}

pub(crate) fn push_named(out: &mut Vec<NamedFile>, name: String, b: &Vec<u8>)
    ensures
        named_models(final(out)@) == named_models(old(out)@).push((name@, b@)),
{
    let ghost before = out@;
    out.push(NamedFile { name, bytes: vstd::slice::slice_to_vec(b.as_slice()) });
    assert(named_models(out@) =~= named_models(before).push((name@, b@)));
}

fn name_files(s: &Vec<Built>) -> (r: Vec<NamedFile>)
    ensures
        named_models(r@) == data_files(built_models(s@), s@.len()) + index_files(
            built_models(s@),
            s@.len(),
        ) + tile_files(built_models(s@), s@.len()),
{
    let ghost ms = built_models(s@);
    let n: usize = s.len();
    let mut out: Vec<NamedFile> = Vec::new();
    assert(named_models(out@) =~= data_files(ms, 0));
    let mut i: usize = 0;
    while i < n
        invariant
            i <= n,
            n == s@.len(),
            ms == built_models(s@),
            named_models(out@) == data_files(ms, i as nat),
        decreases n - i,
    {
        assert(ms[i as int] == s@[i as int]@);
        push_named(&mut out, file_name(i), &s[i].data);
        assert(named_models(out@) =~= data_files(ms, (i + 1) as nat));
        i = i + 1;
    }
    let ghost a = data_files(ms, n as nat);
    assert(named_models(out@) =~= a + index_files(ms, 0));
    let mut j: usize = 0;
    while j < n
        invariant
            j <= n,
            n == s@.len(),
            ms == built_models(s@),
            named_models(out@) == a + index_files(ms, j as nat),
        decreases n - j,
    {
        assert(ms[j as int] == s@[j as int]@);
        if let Some(b) = &s[j].index {
            let mut name = file_name(j);
            name.append("i");
            push_named(&mut out, name, b);
        }
        assert(named_models(out@) =~= a + index_files(ms, (j + 1) as nat));
        j = j + 1;
    }
    let ghost b = a + index_files(ms, n as nat);
    assert(named_models(out@) =~= b + tile_files(ms, 0));
    let mut k: usize = 0;
    while k < n
        invariant
            k <= n,
            n == s@.len(),
            ms == built_models(s@),
            named_models(out@) == b + tile_files(ms, k as nat),
        decreases n - k,
    {
        assert(ms[k as int] == s@[k as int]@);
        if let Some((seq, t)) = &s[k].tile {
            let mut name = file_name(k);
            name.append("_TSM");
            push_u64(&mut name, *seq as u64);
            push_named(&mut out, name, t);
        }
        assert(named_models(out@) =~= b + tile_files(ms, (k + 1) as nat));
        k = k + 1;
    }
    out
}

fn take_blobs(s: Vec<Built>) -> (r: Vec<DmBlob>)
    ensures
        columnset::dm_models(r@) == blobs(built_models(s@)),
{
    let ghost ms = built_models(s@);
    let mut out: Vec<DmBlob> = Vec::new();
    let mut i: usize = 0;
    while i < s.len()
        invariant
            i <= s@.len(),
            ms == built_models(s@),
            out@.len() == i,
            forall|k: int| 0 <= k < i ==> (#[trigger] out@[k])@ == ms[k].blob,
        decreases s@.len() - i,
    {
        assert(ms[i as int] == s@[i as int]@);
        let b = &s[i].blob;
        let made = DmBlob {
            manager_type: b.manager_type.clone(),
            sequence_nr: b.sequence_nr,
            blob: vstd::slice::slice_to_vec(b.blob.as_slice()),
        };
        out.push(made);
        i = i + 1;
    }
    assert(columnset::dm_models(out@) =~= blobs(ms));
    out
}

fn missing_values(columns: usize, lists: usize) -> (e: TableCreateError)
    ensures
        e@ == CreateFault::MissingValues(
            text::decimal(columns as int) + " columns, "@ + text::decimal(lists as int)
                + " value lists"@,
        ),
{
    let mut s: String = String::new();
    push_u64(&mut s, columns as u64);
    s.append(" columns, ");
    push_u64(&mut s, lists as u64);
    s.append(" value lists");
    assert(s@ =~= text::decimal(columns as int) + " columns, "@ + text::decimal(lists as int)
        + " value lists"@);
    TableCreateError::MissingValues(s)
}

fn odd_one(values: &[Vec<RecordValue>], nrow: u64) -> (r: Option<usize>)
    ensures
        match r {
            Some(c) => c < values@.len() && odd_list(
                ssmdata::value_lists(values@),
                nrow,
                0,
            ) == Some(c as int),
            None => odd_list(ssmdata::value_lists(values@), nrow, 0) is None && forall|c: int|
                0 <= c < values@.len() ==> (#[trigger] values@[c])@.len() == nrow,
        },
{
    let ghost lists = ssmdata::value_lists(values@);
    let mut c: usize = 0;
    while c < values.len()
        invariant
            c <= values@.len(),
            lists == ssmdata::value_lists(values@),
            odd_list(lists, nrow, 0) == odd_list(lists, nrow, c as int),
            forall|k: int| 0 <= k < c ==> (#[trigger] values@[k])@.len() == nrow,
        decreases values@.len() - c,
    {
        assert(lists[c as int] == record::value_models(values@[c as int]@));
        if values[c].len() as u64 != nrow {
            return Some(c);
        }
        c = c + 1;
    }
    None
}

/// Build the files of a new table from a description and the columns'
/// values, little-endian. The contents of string-array cells come as
/// `contents`, the tiles of tiled managers as `images`.
pub fn create_table(
    desc: &TableDesc,
    values: &[Vec<RecordValue>],
    numbers: &FloatTexts,
    contents: &[CellContent],
    images: &[TiledImage],
) -> (res: Result<TableFiles, TableCreateError>)
    requires
        tabledesc::table_desc_ready(desc@),
        all_ready(desc@, ssmdata::value_lists(values@)),
    ensures
        match created(
            desc@,
            ssmdata::value_lists(values@),
            ssmdata::supplied(numbers, contents@),
            image_models(images@),
        ) {
            Ok(m) => res is Ok && res->Ok_0@ == m,
            Err(f) => res is Err && res->Err_0@ == f,
        },
{
    proof {
        reveal(created);
    }
    let ghost d = desc@;
    let ghost lists = ssmdata::value_lists(values@);
    let ghost ims = image_models(images@);
    if desc.columns.len() != values.len() {
        return Err(missing_values(desc.columns.len(), values.len()));
    }
    let nrow: u64 = if values.len() == 0 {
        0
    } else {
        assert(lists[0] == record::value_models(values@[0]@));
        values[0].len() as u64
    };
    if let Some(c) = odd_one(values, nrow) {
        assert(lists[c as int] == record::value_models(values@[c as int]@));
        assert(d.columns[c as int] == desc.columns@[c as int]@);
        return Err(
            TableCreateError::RowCountMismatch {
                got: values[c].len(),
                want: nrow,
                column: desc.columns[c].name.clone(),
            },
        );
    }
    let (slots, seqs) = assign_managers(&desc.columns);
    let ghost t = ssmdata::supplied(numbers, contents@);
    let ghost all = all_built(nrow, d, lists, t, ims, 0, Seq::empty());
    let mut built: Vec<Built> = Vec::new();
    assert(built_models(built@) =~= Seq::<BuiltModel>::empty());
    let mut dm: usize = 0;
    while dm < slots.len()
        invariant
            dm <= slots@.len(),
            d == desc@,
            lists == ssmdata::value_lists(values@),
            ims == image_models(images@),
            values@.len() == d.columns.len(),
            nrow == row_count(lists),
            odd_list(lists, nrow, 0) is None,
            forall|c: int| 0 <= c < values@.len() ==> (#[trigger] values@[c])@.len() == nrow,
            all_ready(d, lists),
            slot_models(slots@) == slots_of(d.columns, d.columns.len()),
            seqs@ == sequence_numbers(d.columns),
            t == ssmdata::supplied(numbers, contents@),
            all == all_built(nrow, d, lists, t, ims, 0, Seq::empty()),
            all == all_built(
                nrow,
                d,
                lists,
                t,
                ims,
                dm as int,
                built_models(built@),
            ),
        decreases slots@.len() - dm,
    {
        proof {
            reveal(created);
        }
        let ghost before = built@;
        let cols = member_list(&seqs, dm);
        assert(ssmdata::values_ready(d, lists, cols@, nrow)) by {
            assert forall|k: int| 0 <= k < cols@.len() implies {
                let c = #[trigger] cols@[k] as int;
                &&& 0 <= c < d.columns.len()
                &&& c < lists.len()
                &&& lists[c].len() == nrow
                &&& forall|r: int|
                    0 <= r < lists[c].len() ==> ssmdata::value_ready(
                        d.columns[c],
                        #[trigger] lists[c][r],
                    )
            } by {
                let c = cols@[k] as int;
                assert(values@[c]@.len() == nrow);
                assert(lists[c] == record::value_models(values@[c]@));
            }
        }
        assert(slot_models(slots@)[dm as int] == slots@[dm as int]@);
        assert(slot_models(slots@).len() == slots@.len());
        let b = build_manager(
            nrow,
            desc,
            values,
            &slots[dm],
            dm,
            &cols,
            numbers,
            contents,
            images,
        )?;
        built.push(b);
        assert(built_models(built@) =~= built_models(before).push(b@));
        dm = dm + 1;
    }
    assert(slot_models(slots@).len() == slots@.len());
    let files = name_files(&built);
    let ghost s = built_models(built@);
    assert(s.len() == built@.len());
    let dms = take_blobs(built);
    let dat = build_table_dat(false, nrow, desc, dms.as_slice(), seqs.as_slice())?;
    Ok(TableFiles { dat, files })
}

} // verus!
