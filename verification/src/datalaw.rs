//! What reading gives back of the values of a StandardStMan manager.
use crate::aipsio;
use crate::aipsio::Cursor;
use crate::bytes;
use crate::celllaw;
use crate::json;
use crate::json::FloatModel;
use crate::record::{ArrayModel, DataType, ValueModel};
use crate::recordlaw;
use crate::ssm;
use crate::ssm::{SsmFault, SsmModel};
use crate::ssmcell;
use crate::ssmdata;
use crate::ssmdata::{Aside, SsmOutput, Supplied};
use crate::ssmlaw;
use crate::ssmout;
use crate::ssmout::{CellsModel, LayoutModel};
use crate::strings;
use crate::strings::Shelf;
use crate::table::CreateFault;
use crate::tabledesc::{ColumnModel, KindModel, TableDescModel};
use crate::text;
use vstd::prelude::*;

verus! {

/// `b` is what is laid aside after `a`.
pub open spec fn later(a: Aside, b: Aside) -> bool {
    &&& strings::grown(a.shelf, b.shelf)
    &&& a.arrays.len() <= b.arrays.len()
    &&& b.arrays.subrange(0, a.arrays.len() as int) == a.arrays
    &&& a.strings ==> b.strings
    &&& a.arrayed ==> b.arrayed
}

proof fn lemma_later_self(a: Aside)
    ensures
        later(a, a),
{
    strings::lemma_grown_self(a.shelf);
    assert(a.arrays.subrange(0, a.arrays.len() as int) =~= a.arrays);
}

proof fn lemma_later_trans(a: Aside, b: Aside, c: Aside)
    requires
        later(a, b),
        later(b, c),
    ensures
        later(a, c),
{
    strings::lemma_grown_trans(a.shelf, b.shelf, c.shelf);
    assert(c.arrays.subrange(0, a.arrays.len() as int) =~= c.arrays.subrange(
        0,
        b.arrays.len() as int,
    ).subrange(0, a.arrays.len() as int));
}

/// A cell that refers to a string which is laid aside.
pub open spec fn string_laid(cell: Seq<u8>, b: Seq<u8>, st: Aside, big: bool) -> bool {
    exists|k: int, offset: int| #[trigger]
        strings::stands(st.shelf, k, offset, b) && st.strings && cell == celllaw::ref_cell(
            big,
            (st.shelf.number(k), bytes::low32(offset)),
            b.len() as int,
        )
}

/// A cell that refers to an array record which is laid aside.
pub open spec fn array_laid(cell: Seq<u8>, b: Seq<u8>, st: Aside, big: bool) -> bool {
    exists|p: int|
        0 <= p && p + b.len() <= st.arrays.len() && #[trigger] st.arrays.subrange(p, p + b.len())
            == b && st.arrayed && cell == aipsio::i64_bytes(big, (16 + p) as i64)
}

/// A cell that refers to the content of a string array, which is laid aside
/// unless it is empty.
pub open spec fn content_laid(cell: Seq<u8>, b: Seq<u8>, st: Aside, big: bool) -> bool {
    if b.len() > 0 {
        string_laid(cell, b, st, big)
    } else {
        exists|place: (i32, u32)| cell == #[trigger] celllaw::ref_cell(big, place, 0)
    }
}

/// A cell says what a value is, together with what is laid aside.
pub open spec fn cell_says(
    cell: Seq<u8>,
    cd: ColumnModel,
    v: ValueModel,
    given: Option<Seq<u8>>,
    st: Aside,
    big: bool,
    t: Supplied,
) -> bool {
    match cd.kind {
        KindModel::Scalar(_) => if ssmdata::is_long(cd, v) {
            string_laid(cell, text::text_bytes(v->String_0), st, big)
        } else {
            ssmout::scalar_cell(big, cd.data_type, cd.max_length, v) == Ok::<Seq<u8>, SsmFault>(
                cell,
            )
        },
        KindModel::Array => v matches ValueModel::Array(a) && if cd.data_type == DataType::String {
            given matches Some(b) && content_laid(cell, b, st, big)
        } else {
            array_laid(cell, ssmout::array_bytes(big, a), st, big)
        },
        KindModel::Record => v matches ValueModel::Record(r) && string_laid(
            cell,
            text::text_bytes(json::record_json(r, None, t.texts)),
            st,
            big,
        ),
    }
}

proof fn lemma_string_stays(cell: Seq<u8>, b: Seq<u8>, st: Aside, s2: Aside, big: bool)
    requires
        string_laid(cell, b, st, big),
        later(st, s2),
    ensures
        string_laid(cell, b, s2, big),
{
    let (k, offset) = choose|k: int, offset: int| #[trigger]
        strings::stands(st.shelf, k, offset, b) && st.strings && cell == celllaw::ref_cell(
            big,
            (st.shelf.number(k), bytes::low32(offset)),
            b.len() as int,
        );
    strings::lemma_stands_grown(st.shelf, s2.shelf, k, offset, b);
    assert(strings::stands(s2.shelf, k, offset, b));
}

proof fn lemma_array_stays(cell: Seq<u8>, b: Seq<u8>, st: Aside, s2: Aside, big: bool)
    requires
        array_laid(cell, b, st, big),
        later(st, s2),
    ensures
        array_laid(cell, b, s2, big),
{
    let p = choose|p: int|
        0 <= p && p + b.len() <= st.arrays.len() && #[trigger] st.arrays.subrange(p, p + b.len())
            == b && st.arrayed && cell == aipsio::i64_bytes(big, (16 + p) as i64);
    assert(s2.arrays.subrange(p, p + b.len()) =~= s2.arrays.subrange(
        0,
        st.arrays.len() as int,
    ).subrange(p, p + b.len()));
}

proof fn lemma_cell_stays(
    cell: Seq<u8>,
    cd: ColumnModel,
    v: ValueModel,
    given: Option<Seq<u8>>,
    st: Aside,
    s2: Aside,
    big: bool,
    t: Supplied,
)
    requires
        cell_says(cell, cd, v, given, st, big, t),
        later(st, s2),
    ensures
        cell_says(cell, cd, v, given, s2, big, t),
{
    match cd.kind {
        KindModel::Scalar(_) => {
            if ssmdata::is_long(cd, v) {
                lemma_string_stays(cell, text::text_bytes(v->String_0), st, s2, big);
            }
        },
        KindModel::Array => {
            if cd.data_type != DataType::String {
                lemma_array_stays(cell, ssmout::array_bytes(big, v->Array_0), st, s2, big);
            } else if given->0.len() > 0 {
                lemma_string_stays(cell, given->0, st, s2, big);
            }
        },
        KindModel::Record => {
            lemma_string_stays(
                cell,
                text::text_bytes(json::record_json(v->Record_0, None, t.texts)),
                st,
                s2,
                big,
            );
        },
    }
}

proof fn lemma_lay_string(b: Seq<u8>, st: Aside, big: bool)
    requires
        st.shelf.sound(),
    ensures
        0 < b.len() ==> string_laid(st.string_ref(big, b), b, st.with_string(b), big),
        later(st, st.with_string(b)),
        st.with_string(b).shelf.sound(),
        st.with_string(b).shelf.size == st.shelf.size,
{
    let s2 = st.with_string(b);
    strings::lemma_grown_put(st.shelf, b);
    let r = st.shelf.ready(b.len());
    strings::lemma_fill_size(r, b);
    if 0 < b.len() {
        strings::law_put_stands(st.shelf, b);
        assert(strings::stands(
            s2.shelf,
            r.buckets.len() - 1,
            r.buckets.last().data.len() as int,
            b,
        ));
    }
    assert(st.arrays.subrange(0, st.arrays.len() as int) =~= st.arrays);
}

proof fn lemma_lay_array(b: Seq<u8>, st: Aside, big: bool)
    ensures
        array_laid(st.array_ref(big), b, st.with_array(b), big),
        later(st, st.with_array(b)),
{
    let s2 = st.with_array(b);
    let p = st.arrays.len() as int;
    strings::lemma_grown_self(st.shelf);
    assert(s2.arrays.subrange(p, p + b.len()) =~= b);
    assert(s2.arrays.subrange(0, p) =~= st.arrays);
}

/// The text of a record is not empty.
proof fn lemma_record_text(r: crate::record::RecordModel, t: FloatModel)
    ensures
        text::text_bytes(json::record_json(r, None, t)).len() > 0,
{
    let s = json::record_json(r, None, t);
    reveal_strlit("{");
    assert(s.len() > 0);
    text::law_text_round_trip(s);
    if text::text_bytes(s).len() == 0 {
        assert(text::text_bytes(s) =~= Seq::<u8>::empty());
        text::law_text_round_trip(Seq::empty());
        vstd::utf8::is_ascii_chars_encode_utf8(Seq::<char>::empty());
        assert(text::text_bytes(Seq::empty()) =~= Seq::<u8>::empty());
    }
}

/// The cell of a value says what the value is, and what was laid aside
/// before it stays.
#[verifier::rlimit(40)]
proof fn lemma_step(
    big: bool,
    table: Seq<char>,
    cd: ColumnModel,
    v: ValueModel,
    given: Option<Seq<u8>>,
    st: Aside,
    t: Supplied,
)
    requires
        ssmdata::in_order(st),
        ssmdata::needs_room(cd) ==> 16 < st.shelf.size,
    ensures
        ssmdata::cell_step(big, table, cd, v, given, st, t) matches Ok((c, s)) ==> {
            &&& cell_says(c, cd, v, given, s, big, t)
            &&& later(st, s)
            &&& ssmdata::in_order(s)
            &&& s.shelf.size == st.shelf.size
            &&& c.len() == ssmdata::column_size(cd)
        },
{
    lemma_later_self(st);
    ssmout::lemma_scalar_cell_len(big, cd.data_type, cd.max_length, v);
    match cd.kind {
        KindModel::Scalar(_) => {
            if ssmdata::is_long(cd, v) {
                let b = text::text_bytes(v->String_0);
                lemma_lay_string(b, st, big);
                lemma_ref_len(big, st.shelf.place(b), b.len() as int);
            }
        },
        KindModel::Array => {
            if cd.data_type == DataType::String {
                if let Some(b) = given {
                    lemma_lay_string(b, st, big);
                    lemma_ref_len(big, st.shelf.place(b), b.len() as int);
                }
            } else if let ValueModel::Array(a) = v {
                lemma_lay_array(ssmout::array_bytes(big, a), st, big);
                bytes::lemma_uint_bytes_len(
                    big,
                    bytes::pattern64((16 + st.arrays.len()) as i64) as nat,
                    8,
                );
            }
        },
        KindModel::Record => {
            if let ValueModel::Record(r) = v {
                let b = text::text_bytes(json::record_json(r, None, t.texts));
                lemma_record_text(r, t.texts);
                lemma_lay_string(b, st, big);
                lemma_ref_len(big, st.shelf.place(b), b.len() as int);
            }
        },
    }
}

proof fn lemma_ref_len(big: bool, place: (i32, u32), len: int)
    ensures
        celllaw::ref_cell(big, place, len).len() == 12,
{
    bytes::lemma_uint_bytes_len(big, bytes::pattern32(place.0) as nat, 4);
    bytes::lemma_uint_bytes_len(big, place.1 as nat, 4);
    bytes::lemma_uint_bytes_len(
        big,
        bytes::pattern32(bytes::signed32(bytes::low32(len))) as nat,
        4,
    );
}

/// The cells of a column: row `r`'s says what the value is.
#[verifier::rlimit(40)]
proof fn lemma_column(
    big: bool,
    table: Seq<char>,
    c: int,
    cd: ColumnModel,
    list: Seq<ValueModel>,
    i: int,
    acc: Seq<u8>,
    st: Aside,
    t: Supplied,
    r: int,
)
    requires
        0 <= i <= list.len(),
        acc.len() == i * ssmdata::column_size(cd),
        ssmdata::in_order(st),
        ssmdata::needs_room(cd) ==> 16 < st.shelf.size,
    ensures
        ssmdata::column_cells(big, table, c, cd, list, i, acc, st, t) matches Ok((b, s)) ==> {
            let size = ssmdata::column_size(cd) as int;
            &&& b.len() == list.len() * size
            &&& acc.len() <= b.len()
            &&& b.subrange(0, acc.len() as int) == acc
            &&& later(st, s)
            &&& ssmdata::in_order(s)
            &&& s.shelf.size == st.shelf.size
            &&& i <= r < list.len() ==> 0 <= r * size <= r * size + size <= b.len() && cell_says(
                b.subrange(r * size, r * size + size),
                cd,
                list[r],
                ssmdata::content_of(t.contents, c, r, 0),
                s,
                big,
                t,
            )
        },
    decreases list.len() - i,
{
    let size = ssmdata::column_size(cd) as int;
    if i >= list.len() {
        lemma_later_self(st);
        assert(acc.subrange(0, acc.len() as int) =~= acc);
    } else {
        let given = ssmdata::content_of(t.contents, c, i, 0);
        lemma_step(big, table, cd, list[i], given, st, t);
        match ssmdata::cell_step(big, table, cd, list[i], given, st, t) {
            Err(_) => {},
            Ok((e, s1)) => {
                assert((i + 1) * size == i * size + size) by (nonlinear_arith);
                lemma_column(big, table, c, cd, list, i + 1, acc + e, s1, t, r);
                match ssmdata::column_cells(big, table, c, cd, list, i + 1, acc + e, s1, t) {
                    Err(_) => {},
                    Ok((b, s)) => {
                        lemma_later_trans(st, s1, s);
                        let front = b.subrange(0, (acc + e).len() as int);
                        assert(b.subrange(0, acc.len() as int) =~= front.subrange(
                            0,
                            acc.len() as int,
                        ));
                        assert(front.subrange(0, acc.len() as int) =~= acc);
                        if r == i {
                            assert(b.subrange(r * size, r * size + size) =~= front.subrange(
                                r * size,
                                r * size + size,
                            ));
                            assert(front.subrange(r * size, r * size + size) =~= e);
                            lemma_cell_stays(e, cd, list[r], given, s1, s, big, t);
                        }
                    },
                }
            },
        }
    }
}

/// What a column is stored as.
pub open spec fn column_image(cd: ColumnModel, b: Seq<u8>) -> CellsModel {
    CellsModel {
        cell_size: ssmdata::column_size(cd),
        cell_bits: if ssmdata::is_bits(cd) {
            1
        } else {
            0
        },
        bytes: ssmdata::stored_cells(cd, b),
    }
}

/// The columns of a manager: what column `j` is stored as, before packing.
#[verifier::rlimit(40)]
proof fn lemma_columns(
    big: bool,
    desc: TableDescModel,
    values: Seq<Seq<ValueModel>>,
    dm_cols: Seq<usize>,
    nrow: u64,
    k: int,
    acc: Seq<CellsModel>,
    st: Aside,
    t: Supplied,
    j: int,
    r: int,
) -> (b: Seq<u8>)
    requires
        0 <= k <= dm_cols.len(),
        acc.len() == k,
        ssmdata::in_order(st),
        ssmdata::values_ready(desc, values, dm_cols, nrow),
        forall|k: int|
            0 <= k < dm_cols.len() ==> (ssmdata::needs_room(
                desc.columns[#[trigger] dm_cols[k] as int],
            ) ==> 16 < st.shelf.size),
    ensures
        ssmdata::all_cells(big, desc, values, dm_cols, k, acc, st, t) matches Ok((cols, s)) ==> {
            let c = dm_cols[j] as int;
            let cd = desc.columns[c];
            let size = ssmdata::column_size(cd) as int;
            &&& cols.len() == dm_cols.len()
            &&& forall|x: int| 0 <= x < k ==> cols[x] == acc[x]
            &&& later(st, s)
            &&& ssmdata::in_order(s)
            &&& s.shelf.size == st.shelf.size
            &&& k <= j < dm_cols.len() ==> {
                &&& b.len() == nrow * size
                &&& cols[j] == column_image(cd, b)
                &&& 0 <= r < nrow ==> 0 <= r * size <= r * size + size <= b.len() && cell_says(
                    b.subrange(r * size, r * size + size),
                    cd,
                    values[c][r],
                    ssmdata::content_of(t.contents, c, r, 0),
                    s,
                    big,
                    t,
                )
            }
        },
    decreases dm_cols.len() - k,
{
    if k >= dm_cols.len() {
        lemma_later_self(st);
        Seq::empty()
    } else {
        let c = dm_cols[k] as int;
        let cd = desc.columns[c];
        let size = ssmdata::column_size(cd) as int;
        assert(0 * size == 0);
        lemma_column(big, desc.name, c, cd, values[c], 0, Seq::empty(), st, t, r);
        match ssmdata::column_cells(big, desc.name, c, cd, values[c], 0, Seq::empty(), st, t) {
            Err(_) => Seq::empty(),
            Ok((raw, s1)) => {
                let m = column_image(cd, raw);
                let rest = lemma_columns(
                    big,
                    desc,
                    values,
                    dm_cols,
                    nrow,
                    k + 1,
                    acc.push(m),
                    s1,
                    t,
                    j,
                    r,
                );
                match ssmdata::all_cells(big, desc, values, dm_cols, k + 1, acc.push(m), s1, t) {
                    Err(_) => Seq::empty(),
                    Ok((cols, s)) => {
                        lemma_later_trans(st, s1, s);
                        assert(cols[k] == acc.push(m)[k]);
                        assert forall|x: int| 0 <= x < k implies cols[x] == acc[x] by {
                            assert(cols[x] == acc.push(m)[x]);
                        }
                        if j == k {
                            if 0 <= r < nrow {
                                lemma_cell_stays(
                                    raw.subrange(r * size, r * size + size),
                                    cd,
                                    values[c][r],
                                    ssmdata::content_of(t.contents, c, r, 0),
                                    s1,
                                    s,
                                    big,
                                    t,
                                );
                            }
                            raw
                        } else {
                            rest
                        }
                    },
                }
            },
        }
    }
}

/// The cells of a manager's columns and what is laid aside.
pub open spec fn manager_cells(
    big: bool,
    nrow: u64,
    desc: TableDescModel,
    values: Seq<Seq<ValueModel>>,
    dm_cols: Seq<usize>,
    layout: LayoutModel,
    t: Supplied,
) -> Result<(Seq<CellsModel>, Aside), CreateFault> {
    ssmdata::all_cells(
        big,
        desc,
        values,
        dm_cols,
        0,
        Seq::empty(),
        ssmdata::nothing_aside(big, nrow, desc, dm_cols, layout),
        t,
    )
}

/// The values of a manager's columns can be stored within the limits of the
/// file format: 32-bit row numbers, 31-bit bucket numbers and offsets.
pub open spec fn within_limits(
    big: bool,
    nrow: u64,
    desc: TableDescModel,
    values: Seq<Seq<ValueModel>>,
    dm_cols: Seq<usize>,
    layout: LayoutModel,
    t: Supplied,
) -> bool {
    &&& ssmdata::values_ready(desc, values, dm_cols, nrow)
    &&& ssmdata::holds(layout, desc, dm_cols, nrow)
    &&& nrow <= 0x1_0000_0000
    &&& ssmout::index_stream(big, nrow, layout.rows_per_bucket, dm_cols.len()).len() <= u32::MAX
    &&& layout.bucket_size <= i32::MAX
    &&& manager_cells(big, nrow, desc, values, dm_cols, layout, t) matches Ok((cols, st)) && {
        &&& ssmdata::plain_buckets(
            big,
            nrow,
            layout,
            dm_cols.len(),
        ) + ssmdata::string_buckets(st).len() <= i32::MAX
        &&& 16 + st.arrays.len() <= i64::MAX
    }
}

/// The values of a manager's columns can be stored within those limits in
/// the layout that is made for them.
pub open spec fn fits_format(
    big: bool,
    nrow: u64,
    desc: TableDescModel,
    values: Seq<Seq<ValueModel>>,
    dm_cols: Seq<usize>,
    t: Supplied,
) -> bool {
    &&& ssmdata::storable_layout(desc, dm_cols, nrow)
    &&& within_limits(
        big,
        nrow,
        desc,
        values,
        dm_cols,
        ssmdata::manager_layout(desc, dm_cols),
        t,
    )
}

/// Within the limits, the columns can be stored.
proof fn lemma_stored(
    big: bool,
    nrow: u64,
    desc: TableDescModel,
    values: Seq<Seq<ValueModel>>,
    dm_cols: Seq<usize>,
    layout: LayoutModel,
    t: Supplied,
    name: Seq<char>,
)
    requires
        within_limits(big, nrow, desc, values, dm_cols, layout, t),
    ensures
        manager_cells(big, nrow, desc, values, dm_cols, layout, t) matches Ok((cols, st)) && ssmdata::ssm_data_in(
            big,
            nrow,
            name,
            desc,
            values,
            dm_cols,
            layout,
            t,
        ) == Ok::<SsmOutput, CreateFault>(
            ssmdata::ssm_output(
                big,
                nrow,
                name,
                layout,
                cols,
                st,
            ),
        ),
{
}

/// The beginning is in order.
proof fn lemma_beginning(
    big: bool,
    nrow: u64,
    desc: TableDescModel,
    values: Seq<Seq<ValueModel>>,
    dm_cols: Seq<usize>,
    layout: LayoutModel,
    t: Supplied,
)
    requires
        within_limits(big, nrow, desc, values, dm_cols, layout, t),
    ensures
        ssmdata::in_order(ssmdata::nothing_aside(big, nrow, desc, dm_cols, layout)),
        forall|k: int|
            0 <= k < dm_cols.len() ==> (ssmdata::needs_room(
                desc.columns[#[trigger] dm_cols[k] as int],
            ) ==> 16 < ssmdata::nothing_aside(big, nrow, desc, dm_cols, layout).shelf.size),
{
    assert forall|k: int|
        0 <= k < dm_cols.len() && ssmdata::needs_room(
            desc.columns[#[trigger] dm_cols[k] as int],
        ) implies 16 < ssmdata::nothing_aside(big, nrow, desc, dm_cols, layout).shelf.size by {
        assert(ssmdata::column_inside(
            layout,
            desc.columns[dm_cols[k] as int],
            layout.column_offset[k],
        ));
    }
}

/// The bytes of column `j` before packing, with what row `r`'s cell says.
#[verifier::rlimit(40)]
proof fn lemma_manager_column(
    big: bool,
    nrow: u64,
    desc: TableDescModel,
    values: Seq<Seq<ValueModel>>,
    dm_cols: Seq<usize>,
    layout: LayoutModel,
    t: Supplied,
    j: int,
    r: int,
) -> (b: Seq<u8>)
    requires
        within_limits(big, nrow, desc, values, dm_cols, layout, t),
        0 <= j < dm_cols.len(),
    ensures
        ({
            let (cols, st) = manager_cells(big, nrow, desc, values, dm_cols, layout, t)->Ok_0;
            let c = dm_cols[j] as int;
            let cd = desc.columns[c];
            let size = ssmdata::column_size(cd) as int;
            &&& cols.len() == dm_cols.len()
            &&& ssmdata::in_order(st)
            &&& later(ssmdata::nothing_aside(big, nrow, desc, dm_cols, layout), st)
            &&& st.shelf.size == layout.bucket_size
            &&& b.len() == nrow * size
            &&& cols[j] == column_image(cd, b)
            &&& 0 <= r < nrow ==> 0 <= r * size <= r * size + size <= b.len() && cell_says(
                b.subrange(r * size, r * size + size),
                cd,
                values[c][r],
                ssmdata::content_of(t.contents, c, r, 0),
                st,
                big,
                t,
            )
        }),
{
    lemma_beginning(big, nrow, desc, values, dm_cols, layout, t);
    lemma_columns(
        big,
        desc,
        values,
        dm_cols,
        nrow,
        0,
        Seq::empty(),
        ssmdata::nothing_aside(big, nrow, desc, dm_cols, layout),
        t,
        j,
        r,
    )
}

#[verifier::rlimit(40)]
pub proof fn lemma_all_cover(
    big: bool,
    nrow: u64,
    desc: TableDescModel,
    values: Seq<Seq<ValueModel>>,
    dm_cols: Seq<usize>,
    layout: LayoutModel,
    t: Supplied,
)
    requires
        within_limits(big, nrow, desc, values, dm_cols, layout, t),
        dm_cols.len() > 0,
    ensures
        ({
            let (cols, st) = manager_cells(big, nrow, desc, values, dm_cols, layout, t)->Ok_0;
            &&& cols.len() == dm_cols.len()
            &&& forall|k: int|
                0 <= k < cols.len() ==> ssmdata::cells_cover(
                    #[trigger] cols[k],
                    desc.columns[dm_cols[k] as int],
                    nrow,
                )
        }),
{
    let (cols, st) = manager_cells(big, nrow, desc, values, dm_cols, layout, t)->Ok_0;
    let b0 = lemma_manager_column(big, nrow, desc, values, dm_cols, layout, t, 0, 0);
    assert forall|k: int| 0 <= k < cols.len() implies ssmdata::cells_cover(
        #[trigger] cols[k],
        desc.columns[dm_cols[k] as int],
        nrow,
    ) by {
        let b = lemma_manager_column(big, nrow, desc, values, dm_cols, layout, t, k, 0);
        let cd = desc.columns[dm_cols[k] as int];
        assert(cols[k] == column_image(cd, b));
        if ssmdata::is_bits(cd) {
            assert(nrow * 1 == nrow);
        }
    }
}

/// The written file is one that can be read back.
proof fn lemma_file_storable(
    big: bool,
    nrow: u64,
    desc: TableDescModel,
    values: Seq<Seq<ValueModel>>,
    dm_cols: Seq<usize>,
    layout: LayoutModel,
    t: Supplied,
)
    requires
        within_limits(big, nrow, desc, values, dm_cols, layout, t),
        dm_cols.len() > 0,
    ensures
        ({
            let (cols, st) = manager_cells(big, nrow, desc, values, dm_cols, layout, t)->Ok_0;
                    let strs = ssmdata::string_buckets(st);
            &&& ssmlaw::file_storable(big, nrow, cols, layout, strs)
            &&& ssmlaw::apart(layout, cols, nrow)
            &&& cols.len() == dm_cols.len()
        }),
{
    let (cols, st) = manager_cells(big, nrow, desc, values, dm_cols, layout, t)->Ok_0;
    let strs = ssmdata::string_buckets(st);
    lemma_all_cover(big, nrow, desc, values, dm_cols, layout, t);
    ssmdata::lemma_fits(layout, desc, dm_cols, nrow, cols);
    let b0 = lemma_manager_column(big, nrow, desc, values, dm_cols, layout, t, 0, 0);
    assert(ssmlaw::whole_buckets(strs, layout.bucket_size)) by {
        assert forall|i: int| 0 <= i < strs.len() implies (#[trigger] strs[i]).len()
            == layout.bucket_size by {
            lemma_strings_sound(big, nrow, desc, values, dm_cols, layout, t);
            strings::lemma_image(st.shelf, i);
        }
    }
}

/// Where strings are laid aside, the buckets can hold them.
proof fn lemma_strings_sound(
    big: bool,
    nrow: u64,
    desc: TableDescModel,
    values: Seq<Seq<ValueModel>>,
    dm_cols: Seq<usize>,
    layout: LayoutModel,
    t: Supplied,
)
    requires
        within_limits(big, nrow, desc, values, dm_cols, layout, t),
        dm_cols.len() > 0,
    ensures
        manager_cells(big, nrow, desc, values, dm_cols, layout, t)->Ok_0.1.strings ==> manager_cells(big, nrow, desc, values, dm_cols, layout, t)->Ok_0.1.shelf.sound(),
{
    lemma_beginning(big, nrow, desc, values, dm_cols, layout, t);
    ssmdata::lemma_strings_mean_room(
        big,
        desc,
        values,
        dm_cols,
        0,
        Seq::empty(),
        ssmdata::nothing_aside(big, nrow, desc, dm_cols, layout),
        t,
    );
    let b0 = lemma_manager_column(big, nrow, desc, values, dm_cols, layout, t, 0, 0);
}

/// The file model that a reader of the written files has.
pub open spec fn opened(out: SsmOutput, big: bool) -> SsmModel {
    SsmModel { f0i: out.f0i, ..ssm::parsed(out.file, big)->Ok_0 }
}

/// A reader of the written files has what was written.
pub proof fn lemma_opened(
    big: bool,
    nrow: u64,
    desc: TableDescModel,
    values: Seq<Seq<ValueModel>>,
    dm_cols: Seq<usize>,
    layout: LayoutModel,
    t: Supplied,
    name: Seq<char>,
)
    requires
        within_limits(big, nrow, desc, values, dm_cols, layout, t),
        dm_cols.len() > 0,
    ensures
        ({
            let (cols, st) = manager_cells(big, nrow, desc, values, dm_cols, layout, t)->Ok_0;
                    let out = ssmdata::ssm_data_in(big, nrow, name, desc, values, dm_cols, layout, t)->Ok_0;
            &&& ssmdata::ssm_data_in(big, nrow, name, desc, values, dm_cols, layout, t) is Ok
            &&& out == ssmdata::ssm_output(big, nrow, name, layout, cols, st)
            &&& ssm::parsed(out.file, big) is Ok
            &&& ssmlaw::says(
                opened(out, big),
                big,
                nrow,
                cols,
                layout,
                ssmdata::string_buckets(st),
            )
        }),
{
    let (cols, st) = manager_cells(big, nrow, desc, values, dm_cols, layout, t)->Ok_0;
    lemma_stored(big, nrow, desc, values, dm_cols, layout, t, name);
    lemma_file_storable(big, nrow, desc, values, dm_cols, layout, t);
    ssmlaw::law_file_parsed(big, nrow, cols, layout, ssmdata::string_buckets(st));
}

proof fn lemma_shelved_from(
    m: SsmModel,
    big: bool,
    nrow: u64,
    cols: Seq<CellsModel>,
    layout: LayoutModel,
    shelf: Shelf,
)
    requires
        ssmlaw::file_storable(big, nrow, cols, layout, shelf.images()),
        ssmlaw::says(m, big, nrow, cols, layout, shelf.images()),
        shelf.size <= i32::MAX,
        shelf.first >= 0,
        shelf.first + shelf.buckets.len() <= i32::MAX,
        shelf.first == ssmdata::plain_buckets(big, nrow, layout, cols.len()),
    ensures
        strings::shelved(m, shelf),
{
    assert forall|k: int| 0 <= k < shelf.buckets.len() implies #[trigger] m.bucket(
        (shelf.first + k) as u32,
    ) == Ok::<Seq<u8>, SsmFault>(shelf.image(k)) by {
        ssmlaw::law_string_bucket_read_back(
            m,
            big,
            nrow,
            cols,
            layout,
            shelf.images(),
            k,
        );
        assert(shelf.images()[k] == shelf.image(k));
    }
}

/// What stays the same while cells are built.
proof fn lemma_manager_shelf(
    big: bool,
    nrow: u64,
    desc: TableDescModel,
    values: Seq<Seq<ValueModel>>,
    dm_cols: Seq<usize>,
    layout: LayoutModel,
    t: Supplied,
)
    requires
        within_limits(big, nrow, desc, values, dm_cols, layout, t),
        dm_cols.len() > 0,
    ensures
        ({
            let (cols, st) = manager_cells(big, nrow, desc, values, dm_cols, layout, t)->Ok_0;
            &&& cols.len() == dm_cols.len()
            &&& st.shelf.first == ssmdata::nothing_aside(big, nrow, desc, dm_cols, layout).shelf.first
            &&& st.shelf.size == layout.bucket_size
        }),
{
    let b0 = lemma_manager_column(big, nrow, desc, values, dm_cols, layout, t, 0, 0);
}

proof fn lemma_small_signed(n: int)
    requires
        0 <= n <= i32::MAX,
    ensures
        bytes::signed32(bytes::low32(n)) == n,
{
}

proof fn lemma_plain_buckets(big: bool, nrow: u64, layout: LayoutModel, columns: nat)
    requires
        layout.bucket_size > 8,
        layout.rows_per_bucket > 0,
    ensures
        0 <= ssmdata::plain_buckets(big, nrow, layout, columns),
{
    ssmout::lemma_pieces(nrow as int, layout.rows_per_bucket as int);
    ssmout::lemma_pieces(
        ssmout::index_stream(big, nrow, layout.rows_per_bucket, columns).len() as int,
        layout.bucket_size - 8,
    );
}

/// The first string bucket follows the index buckets.
proof fn lemma_first_string(
    big: bool,
    nrow: u64,
    desc: TableDescModel,
    values: Seq<Seq<ValueModel>>,
    dm_cols: Seq<usize>,
    layout: LayoutModel,
    t: Supplied,
)
    requires
        within_limits(big, nrow, desc, values, dm_cols, layout, t),
        dm_cols.len() > 0,
    ensures
        ({
            let (cols, st) = manager_cells(big, nrow, desc, values, dm_cols, layout, t)->Ok_0;
                    &&& st.shelf.first >= 0
            &&& st.shelf.first == ssmdata::plain_buckets(big, nrow, layout, cols.len())
        }),
{
    lemma_manager_shelf(big, nrow, desc, values, dm_cols, layout, t);
    lemma_plain_buckets(big, nrow, layout, dm_cols.len());
    lemma_small_signed(ssmdata::plain_buckets(big, nrow, layout, dm_cols.len()));
}

/// The string buckets stand in the file.
proof fn lemma_shelved(
    big: bool,
    nrow: u64,
    desc: TableDescModel,
    values: Seq<Seq<ValueModel>>,
    dm_cols: Seq<usize>,
    layout: LayoutModel,
    t: Supplied,
    name: Seq<char>,
)
    requires
        within_limits(big, nrow, desc, values, dm_cols, layout, t),
        dm_cols.len() > 0,
        manager_cells(big, nrow, desc, values, dm_cols, layout, t)->Ok_0.1.strings,
    ensures
        ({
            let st = manager_cells(big, nrow, desc, values, dm_cols, layout, t)->Ok_0.1;
            let out = ssmdata::ssm_data_in(big, nrow, name, desc, values, dm_cols, layout, t)->Ok_0;
            strings::shelved(opened(out, big), st.shelf) && st.shelf.sound()
        }),
{
    let (cols, st) = manager_cells(big, nrow, desc, values, dm_cols, layout, t)->Ok_0;
    let out = ssmdata::ssm_data_in(big, nrow, name, desc, values, dm_cols, layout, t)->Ok_0;
    lemma_opened(big, nrow, desc, values, dm_cols, layout, t, name);
    lemma_file_storable(big, nrow, desc, values, dm_cols, layout, t);
    lemma_strings_sound(big, nrow, desc, values, dm_cols, layout, t);
    lemma_first_string(big, nrow, desc, values, dm_cols, layout, t);
    lemma_manager_shelf(big, nrow, desc, values, dm_cols, layout, t);
    lemma_shelved_from(opened(out, big), big, nrow, cols, layout, st.shelf);
}

/// A scalar value that its column gives back as it is: it has the column's
/// type, and a string has a length that fits, without NULs where the column
/// pads with them.
pub open spec fn faithful_scalar(cd: ColumnModel, v: ValueModel) -> bool {
    if cd.data_type == DataType::String {
        v matches ValueModel::String(s) && {
            let b = text::text_bytes(s);
            if cd.max_length > 0 {
                b.len() <= cd.max_length && forall|i: int|
                    0 <= i < b.len() ==> #[trigger] b[i] != 0
            } else {
                b.len() <= i32::MAX
            }
        }
    } else {
        recordlaw::scalar_fits(cd.data_type, v)
    }
}

/// The place of a manager's column.
proof fn lemma_place(name: Seq<char>, layout: LayoutModel, cols: Seq<CellsModel>, out: SsmOutput, big: bool, nrow: u64, st: Aside, j: int)
    requires
        out == ssmdata::ssm_output(big, nrow, name, layout, cols, st),
        0 <= j < cols.len(),
        cols.len() == layout.column_offset.len(),
    ensures
        ssmcell::column_place(out.manager, j) == Ok::<(u32, u32), SsmFault>(
            (0, layout.column_offset[j]),
        ),
{
}

/// The cell of a row in a column of whole bytes.
#[verifier::rlimit(40)]
proof fn lemma_whole_cell(
    big: bool,
    nrow: u64,
    desc: TableDescModel,
    values: Seq<Seq<ValueModel>>,
    dm_cols: Seq<usize>,
    layout: LayoutModel,
    t: Supplied,
    name: Seq<char>,
    j: int,
    row: u64,
) -> (cell: Seq<u8>)
    requires
        within_limits(big, nrow, desc, values, dm_cols, layout, t),
        0 <= j < dm_cols.len(),
        row < nrow,
        !ssmdata::is_bits(desc.columns[dm_cols[j] as int]),
    ensures
        ({
            let st = manager_cells(big, nrow, desc, values, dm_cols, layout, t)->Ok_0.1;
            let out = ssmdata::ssm_data_in(big, nrow, name, desc, values, dm_cols, layout, t)->Ok_0;
            let cd = desc.columns[dm_cols[j] as int];
            &&& cell_says(
                cell,
                cd,
                values[dm_cols[j] as int][row as int],
                ssmdata::content_of(t.contents, dm_cols[j] as int, row as int, 0),
                st,
                big,
                t,
            )
            &&& opened(out, big).cell(
                0,
                layout.column_offset[j],
                row,
                ssmdata::column_size(cd),
            ) == Ok::<Seq<u8>, SsmFault>(cell)
        }),
{
    let (cols, st) = manager_cells(big, nrow, desc, values, dm_cols, layout, t)->Ok_0;
    let out = ssmdata::ssm_data_in(big, nrow, name, desc, values, dm_cols, layout, t)->Ok_0;
    let cd = desc.columns[dm_cols[j] as int];
    let size = ssmdata::column_size(cd) as int;
    let b = lemma_manager_column(big, nrow, desc, values, dm_cols, layout, t, j, row as int);
    lemma_opened(big, nrow, desc, values, dm_cols, layout, t, name);
    lemma_file_storable(big, nrow, desc, values, dm_cols, layout, t);
    ssmlaw::law_cell_read_back(
        opened(out, big),
        big,
        nrow,
        cols,
        layout,
        ssmdata::string_buckets(st),
        j,
        row,
    );
    b.subrange(row * size, row * size + size)
}

/// The bit of a row in a column of bits.
#[verifier::spinoff_prover]
#[verifier::rlimit(60)]
proof fn lemma_bit_cell(
    big: bool,
    nrow: u64,
    desc: TableDescModel,
    values: Seq<Seq<ValueModel>>,
    dm_cols: Seq<usize>,
    layout: LayoutModel,
    t: Supplied,
    name: Seq<char>,
    j: int,
    row: u64,
)
    requires
        within_limits(big, nrow, desc, values, dm_cols, layout, t),
        0 <= j < dm_cols.len(),
        row < nrow,
        ssmdata::is_bits(desc.columns[dm_cols[j] as int]),
    ensures
        ({
            let out = ssmdata::ssm_data_in(big, nrow, name, desc, values, dm_cols, layout, t)->Ok_0;
                    opened(out, big).bit_cell(0, layout.column_offset[j], row) == Ok::<bool, SsmFault>(
                ssmout::value_bit(values[dm_cols[j] as int][row as int]),
            )
        }),
{
    let (cols, st) = manager_cells(big, nrow, desc, values, dm_cols, layout, t)->Ok_0;
    let out = ssmdata::ssm_data_in(big, nrow, name, desc, values, dm_cols, layout, t)->Ok_0;
    let cd = desc.columns[dm_cols[j] as int];
    let v = values[dm_cols[j] as int][row as int];
    let b = lemma_manager_column(big, nrow, desc, values, dm_cols, layout, t, j, row as int);
    lemma_opened(big, nrow, desc, values, dm_cols, layout, t, name);
    lemma_file_storable(big, nrow, desc, values, dm_cols, layout, t);
    ssmlaw::law_bit_read_back(
        opened(out, big),
        big,
        nrow,
        cols,
        layout,
        ssmdata::string_buckets(st),
        j,
        row,
    );
    let bits = b.map_values(|x: u8| x != 0);
    assert(nrow * 1 == nrow && row * 1 == row);
    bytes::lemma_packed_bit(bits, row as int);
    let cell = b.subrange(row as int, row as int + 1);
    assert(cell == aipsio::bool_bytes(ssmout::value_bit(v)));
    assert(cell[0] == b[row as int]);
}

/// A string in the string buckets is read back through its cell.
#[verifier::rlimit(40)]
proof fn lemma_laid_string(m: SsmModel, st: Aside, cell: Seq<u8>, s: Seq<char>)
    requires
        strings::shelved(m, st.shelf),
        st.shelf.sound(),
        string_laid(cell, text::text_bytes(s), st, m.header.big_endian),
        8 < text::text_bytes(s).len() <= i32::MAX,
    ensures
        m.string_value(cell) == Ok::<ValueModel, SsmFault>(ValueModel::String(s)),
{
    let b = text::text_bytes(s);
    let big = m.header.big_endian;
    let (k, offset) = choose|k: int, offset: int| #[trigger]
        strings::stands(st.shelf, k, offset, b) && st.strings && cell == celllaw::ref_cell(
            big,
            (st.shelf.number(k), bytes::low32(offset)),
            b.len() as int,
        );
    lemma_small_signed(st.shelf.first + k);
    assert(st.shelf.buckets[k].data.len() <= st.shelf.size - 16);
    celllaw::law_long_string_round_trip(m, st.shelf, k, offset, s);
}

/// Every scalar value of a manager is read back, from every column and row.
#[verifier::rlimit(40)]
pub proof fn law_scalar_read_back(
    big: bool,
    nrow: u64,
    desc: TableDescModel,
    values: Seq<Seq<ValueModel>>,
    dm_cols: Seq<usize>,
    layout: LayoutModel,
    t: Supplied,
    name: Seq<char>,
    j: int,
    row: u64,
)
    requires
        within_limits(big, nrow, desc, values, dm_cols, layout, t),
        0 <= j < dm_cols.len(),
        row < nrow,
        desc.columns[dm_cols[j] as int].kind is Scalar,
        desc.columns[dm_cols[j] as int].data_manager_type == "StandardStMan"@,
        faithful_scalar(
            desc.columns[dm_cols[j] as int],
            values[dm_cols[j] as int][row as int],
        ),
    ensures
        ssmdata::ssm_data_in(big, nrow, name, desc, values, dm_cols, layout, t) matches Ok(out)
            && ssm::parsed(out.file, big) is Ok && opened(out, big).scalar(
            out.manager,
            j,
            desc.columns[dm_cols[j] as int],
            row,
        ) == Ok::<ValueModel, SsmFault>(values[dm_cols[j] as int][row as int]),
{
    let (cols, st) = manager_cells(big, nrow, desc, values, dm_cols, layout, t)->Ok_0;
    let out = ssmdata::ssm_data_in(big, nrow, name, desc, values, dm_cols, layout, t)->Ok_0;
    let cd = desc.columns[dm_cols[j] as int];
    let v = values[dm_cols[j] as int][row as int];
    let m = opened(out, big);
    lemma_opened(big, nrow, desc, values, dm_cols, layout, t, name);
    lemma_file_storable(big, nrow, desc, values, dm_cols, layout, t);
    lemma_place(name, layout, cols, out, big, nrow, st, j);
    assert(m.header.big_endian == big);
    if ssmdata::is_bits(cd) {
        lemma_bit_cell(big, nrow, desc, values, dm_cols, layout, t, name, j, row);
    } else {
        let cell = lemma_whole_cell(big, nrow, desc, values, dm_cols, layout, t, name, j, row);
        if cd.data_type == DataType::String {
            let s = v->String_0;
            if cd.max_length > 0 {
                celllaw::law_fixed_string_round_trip(big, cd, s);
            } else if text::text_bytes(s).len() <= 8 {
                celllaw::law_short_string_round_trip(m, cd, s);
            } else {
                lemma_shelved(big, nrow, desc, values, dm_cols, layout, t, name);
                lemma_laid_string(m, st, cell, s);
            }
        } else {
            celllaw::law_scalar_cell_round_trip(big, cd, v);
        }
    }
}

proof fn lemma_zero_version(arrays: Seq<u8>, big: bool)
    ensures
        ssm::u32_in(ssmdata::array_file(big, arrays), 0, big) == Ok::<u32, SsmFault>(0),
{
    let f = ssmdata::array_file(big, arrays);
    bytes::lemma_spans();
    bytes::lemma_uint_bytes_len(big, 0, 4);
    bytes::law_uint_round_trip(big, 0, 4);
    assert(f.subrange(0, 4) =~= bytes::uint_bytes(big, 0, 4));
}

proof fn lemma_laid_array(st: Aside, cell: Seq<u8>, big: bool, elem: DataType, a: ArrayModel)
    requires
        array_laid(cell, ssmout::array_bytes(big, a), st, big),
        celllaw::array_storable(elem, a),
        16 + st.arrays.len() <= i64::MAX,
    ensures
        ({
            let at = bytes::signed64(bytes::uint_value(big, cell) as u64);
            &&& at > 0
            &&& ssmcell::array_record(ssmdata::array_file(big, st.arrays), big, at, elem) == Ok::<
                ArrayModel,
                SsmFault,
            >(a)
        }),
{
    let b = ssmout::array_bytes(big, a);
    let p = choose|p: int|
        0 <= p && p + b.len() <= st.arrays.len() && #[trigger] st.arrays.subrange(p, p + b.len())
            == b && st.arrayed && cell == aipsio::i64_bytes(big, (16 + p) as i64);
    let at = (16 + p) as i64;
    let f = ssmdata::array_file(big, st.arrays);
    bytes::lemma_spans();
    bytes::law_uint_round_trip(big, bytes::pattern64(at) as nat, 8);
    lemma_zero_version(st.arrays, big);
    bytes::lemma_uint_bytes_len(big, 0, 4);
    bytes::lemma_uint_bytes_len(
        big,
        ((16 + st.arrays.len()) % 0x1_0000_0000_0000_0000) as nat,
        8,
    );
    let c = Cursor { data: f, big, pos: at as int };
    assert(f.subrange(at as int, at + b.len()) =~= st.arrays.subrange(p, p + b.len()));
    celllaw::law_array_record_round_trip(f, big, 0, at, elem, a);
}

/// Every array value of a manager is read back, from every column and row.
#[verifier::rlimit(40)]
pub proof fn law_array_read_back(
    big: bool,
    nrow: u64,
    desc: TableDescModel,
    values: Seq<Seq<ValueModel>>,
    dm_cols: Seq<usize>,
    layout: LayoutModel,
    t: Supplied,
    name: Seq<char>,
    j: int,
    row: u64,
    a: ArrayModel,
)
    requires
        within_limits(big, nrow, desc, values, dm_cols, layout, t),
        0 <= j < dm_cols.len(),
        row < nrow,
        desc.columns[dm_cols[j] as int].kind is Array,
        desc.columns[dm_cols[j] as int].data_type != DataType::String,
        values[dm_cols[j] as int][row as int] == ValueModel::Array(a),
        celllaw::array_storable(desc.columns[dm_cols[j] as int].data_type, a),
    ensures
        ssmdata::ssm_data_in(big, nrow, name, desc, values, dm_cols, layout, t) matches Ok(out)
            && ssm::parsed(out.file, big) is Ok && opened(out, big).array(
            out.manager,
            j,
            desc.columns[dm_cols[j] as int],
            row,
        ) == Ok::<ValueModel, SsmFault>(ValueModel::Array(a)),
{
    let (cols, st) = manager_cells(big, nrow, desc, values, dm_cols, layout, t)->Ok_0;
    let out = ssmdata::ssm_data_in(big, nrow, name, desc, values, dm_cols, layout, t)->Ok_0;
    let cd = desc.columns[dm_cols[j] as int];
    lemma_opened(big, nrow, desc, values, dm_cols, layout, t, name);
    lemma_file_storable(big, nrow, desc, values, dm_cols, layout, t);
    lemma_place(name, layout, cols, out, big, nrow, st, j);
    let cell = lemma_whole_cell(big, nrow, desc, values, dm_cols, layout, t, name, j, row);
    lemma_laid_array(st, cell, big, cd.data_type, a);
}

/// The bytes that a reference cell leads to.
pub open spec fn referred(m: SsmModel, cell: Seq<u8>) -> Result<Seq<u8>, SsmFault> {
    let big = m.header.big_endian;
    let len = bytes::signed32(bytes::uint_value(big, cell.subrange(8, 12)) as u32);
    m.string_bytes(
        bytes::signed32(bytes::uint_value(big, cell.subrange(0, 4)) as u32),
        bytes::signed32(bytes::uint_value(big, cell.subrange(4, 8)) as u32) as int,
        len as int,
        len as u32,
    )
}

/// What a written reference cell leads to.
proof fn lemma_referred(m: SsmModel, place: (i32, u32), len: int)
    requires
        0 <= len <= i32::MAX,
    ensures
        referred(m, celllaw::ref_cell(m.header.big_endian, place, len)) == m.string_bytes(
            place.0,
            bytes::signed32(place.1) as int,
            len,
            len as u32,
        ),
{
    let big = m.header.big_endian;
    let cell = celllaw::ref_cell(big, place, len);
    let n = len as i32;
    lemma_small_signed(len);
    bytes::lemma_spans();
    bytes::lemma_uint_bytes_len(big, bytes::pattern32(place.0) as nat, 4);
    bytes::lemma_uint_bytes_len(big, place.1 as nat, 4);
    bytes::lemma_uint_bytes_len(big, bytes::pattern32(n) as nat, 4);
    bytes::law_uint_round_trip(big, bytes::pattern32(place.0) as nat, 4);
    bytes::law_uint_round_trip(big, place.1 as nat, 4);
    bytes::law_uint_round_trip(big, bytes::pattern32(n) as nat, 4);
    assert(cell.subrange(0, 4) =~= aipsio::i32_bytes(big, place.0));
    assert(cell.subrange(4, 8) =~= aipsio::u32_bytes(big, place.1));
    assert(cell.subrange(8, 12) =~= aipsio::i32_bytes(big, n));
}

/// The content of every string-array cell of a manager is read back: the cell
/// of its row leads to the bytes that were given for it.
#[verifier::rlimit(40)]
pub proof fn law_content_read_back(
    big: bool,
    nrow: u64,
    desc: TableDescModel,
    values: Seq<Seq<ValueModel>>,
    dm_cols: Seq<usize>,
    layout: LayoutModel,
    t: Supplied,
    name: Seq<char>,
    j: int,
    row: u64,
)
    requires
        within_limits(big, nrow, desc, values, dm_cols, layout, t),
        0 <= j < dm_cols.len(),
        row < nrow,
        desc.columns[dm_cols[j] as int].kind is Array,
        desc.columns[dm_cols[j] as int].data_type == DataType::String,
        ssmdata::content_of(t.contents, dm_cols[j] as int, row as int, 0) matches Some(b)
            ==> b.len() <= i32::MAX,
    ensures
        ({
            let given = ssmdata::content_of(t.contents, dm_cols[j] as int, row as int, 0);
            let made = ssmdata::ssm_data_in(
                big,
                nrow,
                name,
                desc,
                values,
                dm_cols,
                layout,
                t,
            );
            let m = opened(made->Ok_0, big);
            let cell = m.cell(0, layout.column_offset[j], row, 12);
            &&& given is Some
            &&& made is Ok
            &&& ssm::parsed(made->Ok_0.file, big) is Ok
            &&& cell is Ok
            &&& referred(m, cell->Ok_0) == Ok::<Seq<u8>, SsmFault>(given->0)
        }),
{
    let st = manager_cells(big, nrow, desc, values, dm_cols, layout, t)->Ok_0.1;
    let out = ssmdata::ssm_data_in(big, nrow, name, desc, values, dm_cols, layout, t)->Ok_0;
    let m = opened(out, big);
    lemma_opened(big, nrow, desc, values, dm_cols, layout, t, name);
    let cell = lemma_whole_cell(big, nrow, desc, values, dm_cols, layout, t, name, j, row);
    let b = ssmdata::content_of(t.contents, dm_cols[j] as int, row as int, 0)->0;
    assert(m.header.big_endian == big);
    if b.len() == 0 {
        let place = choose|place: (i32, u32)| cell == #[trigger] celllaw::ref_cell(big, place, 0);
        lemma_referred(m, place, 0);
        assert(b =~= Seq::<u8>::empty());
    } else {
        let (k, offset) = choose|k: int, offset: int| #[trigger]
            strings::stands(st.shelf, k, offset, b) && st.strings && cell == celllaw::ref_cell(
                big,
                (st.shelf.number(k), bytes::low32(offset)),
                b.len() as int,
            );
        lemma_shelved(big, nrow, desc, values, dm_cols, layout, t, name);
        lemma_small_signed(st.shelf.first + k);
        assert(st.shelf.buckets[k].data.len() <= st.shelf.size - 16);
        lemma_small_signed(offset);
        lemma_referred(m, (st.shelf.number(k), bytes::low32(offset)), b.len() as int);
        strings::law_string_read_back(m, st.shelf, k, offset, b, b.len() as u32);
    }
}

} // verus!
