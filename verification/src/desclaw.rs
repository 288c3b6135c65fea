//! What reading gives back of a written table description.
use crate::aipsio;
use crate::aipsio::{AipsIoFault, Cursor};
use crate::record;
use crate::record::{RecordFault, RecordModel};
use crate::recordio;
use crate::recordlaw;
use crate::recordout;
use crate::tabledesc;
use crate::tabledesc::{ColumnClass, ColumnModel, ColumnNumbers, KindModel, TableDescFault, TableDescModel};
use crate::text;
use vstd::prelude::*;

verus! {

/// Every dimension fits a 32-bit integer, and their number a length field.
pub open spec fn dims_storable(dims: Seq<i64>) -> bool {
    &&& dims.len() <= u32::MAX
    &&& forall|i: int| 0 <= i < dims.len() ==> i32::MIN <= #[trigger] dims[i] <= i32::MAX
}

spec fn dims_rest(big: bool, dims: Seq<i64>, k: nat) -> Seq<u8>
    decreases dims.len() - k,
{
    if k >= dims.len() {
        Seq::empty()
    } else {
        aipsio::i32_bytes(big, dims[k as int] as i32) + dims_rest(big, dims, k + 1)
    }
}

proof fn lemma_dims_split(big: bool, dims: Seq<i64>, k: nat)
    requires
        k <= dims.len(),
    ensures
        recordout::dims_bytes(big, dims, dims.len()) == recordout::dims_bytes(big, dims, k)
            + dims_rest(big, dims, k),
    decreases dims.len() - k,
{
    if k < dims.len() {
        lemma_dims_split(big, dims, k + 1);
        assert(recordout::dims_bytes(big, dims, k + 1) + dims_rest(big, dims, k + 1)
            =~= recordout::dims_bytes(big, dims, k) + dims_rest(big, dims, k));
    } else {
        assert(recordout::dims_bytes(big, dims, k) + dims_rest(big, dims, k)
            =~= recordout::dims_bytes(big, dims, k));
    }
}

proof fn lemma_dims_round_trip(c: Cursor, dims: Seq<i64>, k: nat, acc: Seq<i64>)
    requires
        0 <= c.pos,
        dims_storable(dims),
        k <= dims.len(),
        c.holds(dims_rest(c.big, dims, k)),
    ensures
        c.dims(1, (dims.len() - k) as nat, acc) == Ok::<(Seq<i64>, Cursor), (AipsIoFault, Cursor)>(
            (
                acc + dims.subrange(k as int, dims.len() as int),
                c.skip(dims_rest(c.big, dims, k).len() as int),
            ),
        ),
    decreases dims.len() - k,
{
    let n = dims.len();
    if k == n {
        assert(acc + dims.subrange(k as int, n as int) =~= acc);
    } else {
        let d = dims[k as int] as i32;
        let b = aipsio::i32_bytes(c.big, d);
        aipsio::lemma_holds_concat(c, b, dims_rest(c.big, dims, k + 1));
        aipsio::law_i32_round_trip(c, d);
        crate::bytes::lemma_uint_bytes_len(c.big, crate::bytes::pattern32(d) as nat, 4);
        assert(d as i64 == dims[k as int]);
        lemma_dims_round_trip(c.skip(4), dims, k + 1, acc.push(dims[k as int]));
        assert(acc.push(dims[k as int]) + dims.subrange(k as int + 1, n as int) =~= acc
            + dims.subrange(k as int, n as int));
    }
}

/// A written IPosition is read back.
pub proof fn law_iposition_round_trip(c: Cursor, dims: Seq<i64>)
    requires
        0 <= c.pos,
        dims_storable(dims),
        c.holds(recordout::iposition_bytes(c.big, dims)),
    ensures
        c.iposition() == Ok::<(Seq<i64>, Cursor), (AipsIoFault, Cursor)>(
            (dims, c.skip(recordout::iposition_bytes(c.big, dims).len() as int)),
        ),
{
    let big = c.big;
    let n = crate::bytes::low32(dims.len() as int);
    let head = aipsio::u32_bytes(big, n);
    let body = recordout::dims_bytes(big, dims, dims.len());
    reveal_strlit("IPosition");
    vstd::utf8::is_ascii_chars_encode_utf8("IPosition"@);
    aipsio::law_object_round_trip(c, false, "IPosition"@, 1, head + body);
    let (h, d) = c.object(false, "IPosition"@)->Ok_0;
    aipsio::lemma_holds_concat(d, head, body);
    aipsio::law_u32_round_trip(d, n);
    crate::bytes::lemma_uint_bytes_len(big, n as nat, 4);
    lemma_dims_split(big, dims, 0);
    assert(body =~= dims_rest(big, dims, 0));
    lemma_dims_round_trip(d.skip(4), dims, 0, Seq::empty());
    assert(Seq::<i64>::empty() + dims.subrange(0, dims.len() as int) =~= dims);
}

/// A column descriptor that can be read back.
pub open spec fn column_storable(m: ColumnModel) -> bool {
    &&& recordlaw::short_text(m.name)
    &&& recordlaw::short_text(m.comment)
    &&& recordlaw::short_text(m.data_manager_type)
    &&& recordlaw::short_text(m.data_manager_group)
    &&& recordlaw::record_storable(m.keywords)
    &&& match m.kind {
        KindModel::Scalar(v) => recordlaw::scalar_fits(m.data_type, v) && m.shape is None,
        KindModel::Record => m.shape is None,
        KindModel::Array => m.shape matches Some(s) && dims_storable(s),
    }
}

/// A column descriptor as it is read back.
pub open spec fn stored_column(m: ColumnModel) -> ColumnModel {
    ColumnModel { keywords: recordlaw::stored_record(m.keywords), ..m }
}

pub open spec fn kind_class(k: KindModel) -> ColumnClass {
    match k {
        KindModel::Scalar(_) => ColumnClass::Scalar,
        KindModel::Record => ColumnClass::Record,
        KindModel::Array => ColumnClass::Array,
    }
}

#[verifier::rlimit(40)]
proof fn lemma_class_names(m: ColumnModel)
    ensures
        tabledesc::class_of(tabledesc::class_name(m)) == Some(kind_class(m.kind)),
        recordlaw::short_text(tabledesc::class_name(m)),
{
    let name = tabledesc::class_name(m);
    let label = tabledesc::type_label(m.data_type);
    reveal_strlit("ScalarRecordColumnDesc");
    reveal_strlit("ScalarColumnDesc<");
    reveal_strlit("ArrayColumnDesc<");
    reveal_strlit("Bool    ");
    reveal_strlit("Char    ");
    reveal_strlit("uChar   ");
    reveal_strlit("Short   ");
    reveal_strlit("uShort  ");
    reveal_strlit("Int     ");
    reveal_strlit("uInt    ");
    reveal_strlit("Int64   ");
    reveal_strlit("float   ");
    reveal_strlit("double  ");
    reveal_strlit("Complex ");
    reveal_strlit("DComplex");
    reveal_strlit("String  ");
    reveal_strlit("unknown ");
    assert(vstd::utf8::is_ascii_chars(label));
    assert(vstd::utf8::is_ascii_chars(name));
    vstd::utf8::is_ascii_chars_encode_utf8(name);
    let rec = "ScalarRecordColumnDesc"@;
    let sca = "ScalarColumnDesc<"@;
    let arr = "ArrayColumnDesc<"@;
    match m.kind {
        KindModel::Scalar(_) => {
            assert(name.subrange(0, sca.len() as int) =~= sca);
            assert(!text::has_prefix(name, rec)) by {
                if text::has_prefix(name, rec) {
                    assert(name.subrange(0, rec.len() as int)[6] == rec[6]);
                }
            }
        },
        KindModel::Array => {
            assert(name.subrange(0, arr.len() as int) =~= arr);
            assert(!text::has_prefix(name, rec)) by {
                if text::has_prefix(name, rec) {
                    assert(name.subrange(0, rec.len() as int)[0] == rec[0]);
                }
            }
            assert(!text::has_prefix(name, sca)) by {
                if text::has_prefix(name, sca) {
                    assert(name.subrange(0, sca.len() as int)[0] == sca[0]);
                }
            }
        },
        KindModel::Record => {
            assert(name.subrange(0, rec.len() as int) =~= rec);
        },
    }
}

#[verifier::rlimit(40)]
proof fn lemma_head_round_trip(c: Cursor, m: ColumnModel)
    requires
        0 <= c.pos,
        column_storable(m),
        c.holds(tabledesc::column_head_bytes(c.big, m)),
    ensures
        c.u32() matches Ok((_, d)) && d.string() == Ok::<
            (Seq<char>, Cursor),
            (AipsIoFault, Cursor),
        >((tabledesc::class_name(m), column_texts_cursor(c, m))) && tabledesc::column_texts_at(
            column_texts_cursor(c, m),
        ) == Ok::<((Seq<char>, Seq<char>, Seq<char>, Seq<char>), Cursor), (AipsIoFault, Cursor)>(
            (
                (m.name, m.comment, m.data_manager_type, m.data_manager_group),
                c.skip(tabledesc::column_head_bytes(c.big, m).len() as int),
            ),
        ),
{
    reveal(tabledesc::column_texts_at);
    let big = c.big;
    let one = aipsio::u32_bytes(big, 1);
    let b = aipsio::string_bytes(big, tabledesc::class_name(m));
    let d = aipsio::string_bytes(big, m.name);
    let e = aipsio::string_bytes(big, m.comment);
    let f = aipsio::string_bytes(big, m.data_manager_type);
    let g = aipsio::string_bytes(big, m.data_manager_group);
    lemma_class_names(m);
    crate::bytes::lemma_uint_bytes_len(big, 1, 4);
    aipsio::lemma_holds_concat(c, one + b + one + d + e + f, g);
    aipsio::lemma_holds_concat(c, one + b + one + d + e, f);
    aipsio::lemma_holds_concat(c, one + b + one + d, e);
    aipsio::lemma_holds_concat(c, one + b + one, d);
    aipsio::lemma_holds_concat(c, one + b, one);
    aipsio::lemma_holds_concat(c, one, b);
    aipsio::law_u32_round_trip(c, 1);
    let c1 = c.skip(4);
    aipsio::law_string_round_trip(c1, tabledesc::class_name(m));
    let c2 = c.skip((one + b).len() as int);
    assert(c2 == column_texts_cursor(c, m));
    aipsio::law_u32_round_trip(c2, 1);
    let c3 = c2.skip(4);
    assert(c3 == c.skip((one + b + one).len() as int));
    aipsio::law_string_round_trip(c3, m.name);
    let c4 = c3.skip(d.len() as int);
    assert(c4 == c.skip((one + b + one + d).len() as int));
    aipsio::law_string_round_trip(c4, m.comment);
    let c5 = c4.skip(e.len() as int);
    assert(c5 == c.skip((one + b + one + d + e).len() as int));
    aipsio::law_string_round_trip(c5, m.data_manager_type);
    let c6 = c5.skip(f.len() as int);
    assert(c6 == c.skip((one + b + one + d + e + f).len() as int));
    aipsio::law_string_round_trip(c6, m.data_manager_group);
}

/// The cursor after the class name of a column descriptor at `c`.
spec fn column_texts_cursor(c: Cursor, m: ColumnModel) -> Cursor {
    c.skip((4 + aipsio::string_bytes(c.big, tabledesc::class_name(m)).len()) as int)
}

#[verifier::rlimit(40)]
proof fn lemma_numbers_round_trip(c: Cursor, m: ColumnModel)
    requires
        0 <= c.pos,
        column_storable(m),
        c.holds(tabledesc::column_numbers_bytes(c.big, m)),
    ensures
        tabledesc::column_numbers_at(c, kind_class(m.kind)) == Ok::<
            (ColumnNumbers, Cursor),
            (TableDescFault, Cursor),
        >(
            (
                ColumnNumbers {
                    data_type: m.data_type,
                    options: m.options,
                    ndim: m.ndim,
                    shape: m.shape,
                    max_length: m.max_length,
                },
                c.skip(tabledesc::column_numbers_bytes(c.big, m).len() as int),
            ),
        ),
{
    reveal(tabledesc::column_numbers_at);
    let big = c.big;
    let code = record::type_code(m.data_type);
    let n1 = aipsio::i32_bytes(big, code);
    let n2 = aipsio::i32_bytes(big, m.options);
    let n3 = aipsio::i32_bytes(big, m.ndim);
    let n4 = tabledesc::shape_bytes(big, m);
    let n5 = aipsio::i32_bytes(big, m.max_length);
    crate::bytes::lemma_uint_bytes_len(big, crate::bytes::pattern32(code) as nat, 4);
    crate::bytes::lemma_uint_bytes_len(big, crate::bytes::pattern32(m.options) as nat, 4);
    crate::bytes::lemma_uint_bytes_len(big, crate::bytes::pattern32(m.ndim) as nat, 4);
    crate::bytes::lemma_uint_bytes_len(big, crate::bytes::pattern32(m.max_length) as nat, 4);
    aipsio::lemma_holds_concat(c, n1 + n2 + n3 + n4, n5);
    aipsio::lemma_holds_concat(c, n1 + n2 + n3, n4);
    aipsio::lemma_holds_concat(c, n1 + n2, n3);
    aipsio::lemma_holds_concat(c, n1, n2);
    aipsio::law_i32_round_trip(c, code);
    record::law_type_codes(m.data_type, m.data_type);
    let c1 = c.skip(4);
    aipsio::law_i32_round_trip(c1, m.options);
    let c2 = c1.skip(4);
    assert(c2 == c.skip((n1 + n2).len() as int));
    aipsio::law_i32_round_trip(c2, m.ndim);
    let c3 = c2.skip(4);
    assert(c3 == c.skip((n1 + n2 + n3).len() as int));
    if m.kind is Array {
        law_iposition_round_trip(c3, m.shape->0);
    }
    let c4 = c3.skip(n4.len() as int);
    assert(c4 == c.skip((n1 + n2 + n3 + n4).len() as int));
    aipsio::law_i32_round_trip(c4, m.max_length);
}

proof fn lemma_kind_round_trip(c: Cursor, m: ColumnModel)
    requires
        0 <= c.pos,
        column_storable(m),
        c.holds(aipsio::u32_bytes(c.big, 1) + tabledesc::kind_bytes(c.big, m)),
    ensures
        tabledesc::kind_at(c, kind_class(m.kind), m.data_type) == Ok::<
            (KindModel, Cursor),
            (TableDescFault, Cursor),
        >((m.kind, c.skip(4 + tabledesc::kind_bytes(c.big, m).len() as int))),
{
    reveal(tabledesc::kind_at);
    let one = aipsio::u32_bytes(c.big, 1);
    crate::bytes::lemma_uint_bytes_len(c.big, 1, 4);
    aipsio::lemma_holds_concat(c, one, tabledesc::kind_bytes(c.big, m));
    aipsio::law_u32_round_trip(c, 1);
    let d = c.skip(4);
    match m.kind {
        KindModel::Scalar(v) => recordlaw::law_scalar_round_trip(d, m.data_type, v),
        KindModel::Array => aipsio::law_bool_round_trip(d, false),
        KindModel::Record => {},
    }
}

proof fn lemma_rest_round_trip(c: Cursor, m: ColumnModel, k: Seq<u8>)
    requires
        0 <= c.pos,
        column_storable(m),
        recordout::record_bytes(c.big, m.keywords) == Ok::<Seq<u8>, RecordFault>(k),
        c.holds(
            tabledesc::column_numbers_bytes(c.big, m) + (k + (aipsio::u32_bytes(c.big, 1)
                + tabledesc::kind_bytes(c.big, m))),
        ),
    ensures
        tabledesc::column_rest_at(
            c,
            kind_class(m.kind),
            (m.name, m.comment, m.data_manager_type, m.data_manager_group),
        ) == Ok::<(ColumnModel, Cursor), (TableDescFault, Cursor)>(
            (
                stored_column(m),
                c.skip(
                    tabledesc::column_numbers_bytes(c.big, m).len() + k.len() + 4
                        + tabledesc::kind_bytes(c.big, m).len() as int,
                ),
            ),
        ),
{
    reveal(tabledesc::column_rest_at);
    let big = c.big;
    let nums = tabledesc::column_numbers_bytes(big, m);
    let tail = aipsio::u32_bytes(big, 1) + tabledesc::kind_bytes(big, m);
    aipsio::lemma_holds_concat(c, nums, k + tail);
    let d = c.skip(nums.len() as int);
    aipsio::lemma_holds_concat(d, k, tail);
    lemma_numbers_round_trip(c, m);
    recordlaw::law_record_round_trip(d, m.keywords);
    lemma_kind_round_trip(d.skip(k.len() as int), m);
}

proof fn lemma_column_assembled(c: Cursor, m: ColumnModel, d: Cursor, e: Cursor)
    requires
        column_storable(m),
        c.u32() matches Ok((_, x)) && x.string() == Ok::<
            (Seq<char>, Cursor),
            (AipsIoFault, Cursor),
        >((tabledesc::class_name(m), d)),
        tabledesc::class_of(tabledesc::class_name(m)) == Some(kind_class(m.kind)),
        tabledesc::column_texts_at(d) == Ok::<
            ((Seq<char>, Seq<char>, Seq<char>, Seq<char>), Cursor),
            (AipsIoFault, Cursor),
        >(((m.name, m.comment, m.data_manager_type, m.data_manager_group), e)),
    ensures
        tabledesc::column_at(c) == tabledesc::column_rest_at(
            e,
            kind_class(m.kind),
            (m.name, m.comment, m.data_manager_type, m.data_manager_group),
        ),
{
    reveal(tabledesc::column_at);
}

proof fn lemma_five_parts(a: Seq<u8>, b: Seq<u8>, c: Seq<u8>, d: Seq<u8>, e: Seq<u8>)
    ensures
        a + b + c + d + e == a + (b + (c + (d + e))),
{
    assert(a + b + c + d + e =~= a + (b + (c + (d + e))));
}

/// A written column descriptor is read back.
#[verifier::spinoff_prover]
#[verifier::rlimit(60)]
pub proof fn law_column_round_trip(c: Cursor, m: ColumnModel)
    requires
        0 <= c.pos,
        column_storable(m),
        tabledesc::column_written(c.big, m) matches Ok(b) ==> c.holds(b),
    ensures
        tabledesc::column_written(c.big, m) matches Ok(b) && tabledesc::column_at(c) == Ok::<
            (ColumnModel, Cursor),
            (TableDescFault, Cursor),
        >((stored_column(m), c.skip(b.len() as int))),
{
    let big = c.big;
    assert(recordout::record_bytes(big, m.keywords) is Ok) by {
        recordlaw::lemma_record_written(big, m.keywords);
    }
    let k = recordout::record_bytes(big, m.keywords)->Ok_0;
    let head = tabledesc::column_head_bytes(big, m);
    let rest = tabledesc::column_numbers_bytes(big, m) + (k + (aipsio::u32_bytes(big, 1)
        + tabledesc::kind_bytes(big, m)));
    let b = tabledesc::column_bytes(big, m, k);
    assert(b == head + rest && b.len() == head.len() + tabledesc::column_numbers_bytes(big, m).len()
        + k.len() + 4 + tabledesc::kind_bytes(big, m).len()) by {
        reveal(tabledesc::column_bytes);
        crate::bytes::lemma_uint_bytes_len(big, 1, 4);
        lemma_five_parts(
            head,
            tabledesc::column_numbers_bytes(big, m),
            k,
            aipsio::u32_bytes(big, 1),
            tabledesc::kind_bytes(big, m),
        );
    }
    aipsio::lemma_holds_concat(c, head, rest);
    lemma_head_round_trip(c, m);
    lemma_class_names(m);
    let e = c.skip(head.len() as int);
    lemma_column_assembled(c, m, column_texts_cursor(c, m), e);
    lemma_rest_round_trip(e, m, k);
}

/// A table description that can be read back.
pub open spec fn table_desc_storable(m: TableDescModel) -> bool {
    &&& recordlaw::short_text(m.name)
    &&& recordlaw::short_text(m.version)
    &&& recordlaw::short_text(m.comment)
    &&& recordlaw::record_storable(m.keywords)
    &&& recordlaw::record_storable(m.private_keywords)
    &&& m.columns.len() <= u32::MAX
    &&& columns_storable(m.columns)
}

/// Column descriptors that can be read back.
#[verifier::opaque]
pub open spec fn columns_storable(cs: Seq<ColumnModel>) -> bool {
    forall|i: int| 0 <= i < cs.len() ==> column_storable(#[trigger] cs[i])
}

/// The columns as they are read back.
pub open spec fn stored_columns(cs: Seq<ColumnModel>) -> Seq<ColumnModel> {
    cs.map_values(|m: ColumnModel| stored_column(m))
}

/// A table description as it is read back.
pub open spec fn stored_table_desc(m: TableDescModel) -> TableDescModel {
    TableDescModel {
        keywords: recordlaw::stored_record(m.keywords),
        private_keywords: recordlaw::stored_record(m.private_keywords),
        columns: stored_columns(m.columns),
        ..m
    }
}

spec fn columns_rest(big: bool, cs: Seq<ColumnModel>, k: nat) -> Seq<u8>
    decreases cs.len() - k,
{
    if k >= cs.len() {
        Seq::empty()
    } else {
        tabledesc::column_written(big, cs[k as int])->Ok_0 + columns_rest(big, cs, k + 1)
    }
}

proof fn lemma_column_written(big: bool, m: ColumnModel)
    requires
        column_storable(m),
    ensures
        tabledesc::column_written(big, m) is Ok,
{
    recordlaw::lemma_record_written(big, m.keywords);
}

proof fn lemma_columns_written(big: bool, cs: Seq<ColumnModel>, n: nat)
    requires
        n <= cs.len(),
        columns_storable(cs),
    ensures
        tabledesc::columns_written(big, cs, n) is Ok,
    decreases n,
{
    reveal(columns_storable);
    if n > 0 {
        lemma_columns_written(big, cs, (n - 1) as nat);
        lemma_column_written(big, cs[n - 1]);
    }
}

proof fn lemma_columns_split(big: bool, cs: Seq<ColumnModel>, k: nat)
    requires
        k <= cs.len(),
        columns_storable(cs),
    ensures
        tabledesc::columns_written(big, cs, cs.len())->Ok_0 == tabledesc::columns_written(
            big,
            cs,
            k,
        )->Ok_0 + columns_rest(big, cs, k),
    decreases cs.len() - k,
{
    reveal(columns_storable);
    lemma_columns_written(big, cs, k);
    let b = tabledesc::columns_written(big, cs, k)->Ok_0;
    if k < cs.len() {
        lemma_columns_split(big, cs, k + 1);
        lemma_column_written(big, cs[k as int]);
        let x = tabledesc::column_written(big, cs[k as int])->Ok_0;
        let rest = columns_rest(big, cs, k + 1);
        assert((b + x) + rest =~= b + (x + rest));
    } else {
        assert(b + columns_rest(big, cs, k) =~= b);
    }
}

#[verifier::rlimit(40)]
proof fn lemma_columns_round_trip(
    c: Cursor,
    cs: Seq<ColumnModel>,
    k: nat,
    acc: Seq<ColumnModel>,
)
    requires
        0 <= c.pos,
        k <= cs.len(),
        columns_storable(cs),
        c.holds(columns_rest(c.big, cs, k)),
    ensures
        tabledesc::columns_at(c, (cs.len() - k) as nat, acc) == Ok::<
            (Seq<ColumnModel>, Cursor),
            (TableDescFault, Cursor),
        >(
            (
                acc + stored_columns(cs).subrange(k as int, cs.len() as int),
                c.skip(columns_rest(c.big, cs, k).len() as int),
            ),
        ),
    decreases cs.len() - k,
{
    reveal(columns_storable);
    let n = cs.len();
    if k == n {
        assert(acc + stored_columns(cs).subrange(k as int, n as int) =~= acc);
    } else {
        let m = cs[k as int];
        let b = tabledesc::column_written(c.big, m)->Ok_0;
        aipsio::lemma_holds_concat(c, b, columns_rest(c.big, cs, k + 1));
        law_column_round_trip(c, m);
        lemma_columns_round_trip(
            c.skip(b.len() as int),
            cs,
            k + 1,
            acc.push(stored_column(m)),
        );
        assert(acc.push(stored_column(m)) + stored_columns(cs).subrange(k as int + 1, n as int)
            =~= acc + stored_columns(cs).subrange(k as int, n as int));
    }
}

proof fn lemma_seven_parts(
    d: Cursor,
    a: Seq<u8>,
    b: Seq<u8>,
    c: Seq<u8>,
    k: Seq<u8>,
    p: Seq<u8>,
    n: Seq<u8>,
    r: Seq<u8>,
)
    requires
        d.holds(a + b + c + k + p + n + r),
    ensures
        d.holds(a),
        d.skip(a.len() as int).holds(b),
        d.skip(a.len() as int).skip(b.len() as int).holds(c),
        d.skip(a.len() as int).skip(b.len() as int).skip(c.len() as int).holds(k),
        d.skip(a.len() as int).skip(b.len() as int).skip(c.len() as int).skip(k.len() as int).holds(
            p,
        ),
        d.skip(a.len() as int).skip(b.len() as int).skip(c.len() as int).skip(k.len() as int).skip(
            p.len() as int,
        ).holds(n),
        d.skip(a.len() as int).skip(b.len() as int).skip(c.len() as int).skip(k.len() as int).skip(
            p.len() as int,
        ).skip(n.len() as int).holds(r),
{
    aipsio::lemma_holds_concat(d, a + b + c + k + p + n, r);
    aipsio::lemma_holds_concat(d, a + b + c + k + p, n);
    aipsio::lemma_holds_concat(d, a + b + c + k, p);
    aipsio::lemma_holds_concat(d, a + b + c, k);
    aipsio::lemma_holds_concat(d, a + b, c);
    aipsio::lemma_holds_concat(d, a, b);
}

#[verifier::rlimit(40)]
proof fn lemma_table_desc_assembled(
    c: Cursor,
    h: aipsio::ObjectHead,
    d: Cursor,
    m: TableDescModel,
    d1: Cursor,
    d2: Cursor,
    d3: Cursor,
    d4: Cursor,
    d5: Cursor,
    n: u32,
    d7: Cursor,
)
    requires
        c.object_start(false) == Ok::<(aipsio::ObjectHead, Cursor), (AipsIoFault, Cursor)>((h, d)),
        h.object_type == "TableDesc"@,
        h.version == 2,
        d.string() == Ok::<(Seq<char>, Cursor), (AipsIoFault, Cursor)>((m.name, d1)),
        d1.string() == Ok::<(Seq<char>, Cursor), (AipsIoFault, Cursor)>((m.version, d2)),
        d2.string() == Ok::<(Seq<char>, Cursor), (AipsIoFault, Cursor)>((m.comment, d3)),
        recordio::record_at(d3) == Ok::<(RecordModel, Cursor), (RecordFault, Cursor)>(
            (m.keywords, d4),
        ),
        recordio::record_at(d4) == Ok::<(RecordModel, Cursor), (RecordFault, Cursor)>(
            (m.private_keywords, d5),
        ),
        d5.u32() == Ok::<(u32, Cursor), (AipsIoFault, Cursor)>((n, d5.skip(4))),
        tabledesc::columns_at(d5.skip(4), n as nat, Seq::empty()) == Ok::<
            (Seq<ColumnModel>, Cursor),
            (TableDescFault, Cursor),
        >((m.columns, d7)),
    ensures
        tabledesc::table_desc_at(c) == Ok::<(TableDescModel, Cursor), (TableDescFault, Cursor)>(
            (m, d7),
        ),
{
    reveal(tabledesc::table_desc_at);
}

/// A written table description is read back.
#[verifier::rlimit(40)]
pub proof fn law_table_desc_round_trip(c: Cursor, m: TableDescModel)
    requires
        0 <= c.pos,
        table_desc_storable(m),
        tabledesc::table_desc_written(c.big, m) matches Ok(b) ==> c.holds(b),
    ensures
        tabledesc::table_desc_written(c.big, m) matches Ok(b) && tabledesc::table_desc_at(c)
            == Ok::<(TableDescModel, Cursor), (TableDescFault, Cursor)>(
            (stored_table_desc(m), c.skip(b.len() as int)),
        ),
{
    let big = c.big;
    lemma_table_desc_written(big, m);
    let k = recordout::record_bytes(big, m.keywords)->Ok_0;
    let p = recordout::record_bytes(big, m.private_keywords)->Ok_0;
    let cols = tabledesc::columns_written(big, m.columns, m.columns.len())->Ok_0;
    let (h, d) = lemma_table_desc_parts(c, m, k, p, cols);
    let d3 = d.skip(texts_len(big, m));
    let d4 = d3.skip(k.len() as int);
    let d5 = d4.skip(p.len() as int);
    lemma_table_desc_reads(d3, m, k, p, cols);
    lemma_table_desc_assembled(
        c,
        h,
        d,
        stored_table_desc(m),
        d.skip(aipsio::string_bytes(big, m.name).len() as int),
        d.skip(
            aipsio::string_bytes(big, m.name).len() + aipsio::string_bytes(big, m.version).len() as int,
        ),
        d3,
        d4,
        d5,
        crate::bytes::low32(m.columns.len() as int),
        d5.skip(4 + cols.len() as int),
    );
}

/// The length of the three strings of a table description.
spec fn texts_len(big: bool, m: TableDescModel) -> int {
    aipsio::string_bytes(big, m.name).len() + aipsio::string_bytes(big, m.version).len()
        + aipsio::string_bytes(big, m.comment).len() as int
}

pub proof fn lemma_table_desc_written(big: bool, m: TableDescModel)
    requires
        table_desc_storable(m),
    ensures
        recordout::record_bytes(big, m.keywords) is Ok,
        recordout::record_bytes(big, m.private_keywords) is Ok,
        tabledesc::columns_written(big, m.columns, m.columns.len()) is Ok,
{
    recordlaw::lemma_record_written(big, m.keywords);
    recordlaw::lemma_record_written(big, m.private_keywords);
    lemma_columns_written(big, m.columns, m.columns.len());
}

#[verifier::rlimit(40)]
proof fn lemma_table_desc_parts(
    c: Cursor,
    m: TableDescModel,
    k: Seq<u8>,
    p: Seq<u8>,
    cols: Seq<u8>,
) -> (r: (aipsio::ObjectHead, Cursor))
    requires
        0 <= c.pos,
        recordlaw::short_text(m.name),
        recordlaw::short_text(m.version),
        recordlaw::short_text(m.comment),
        c.holds(
            aipsio::object_bytes(
                c.big,
                false,
                "TableDesc"@,
                2,
                tabledesc::table_desc_payload(c.big, m, k, p, cols),
            ),
        ),
    ensures
        c.object_start(false) == Ok::<(aipsio::ObjectHead, Cursor), (AipsIoFault, Cursor)>(r),
        r.0.object_type == "TableDesc"@,
        r.0.version == 2,
        r.1.big == c.big,
        r.1.pos >= 0,
        r.1.string() == Ok::<(Seq<char>, Cursor), (AipsIoFault, Cursor)>(
            (m.name, r.1.skip(aipsio::string_bytes(c.big, m.name).len() as int)),
        ),
        r.1.skip(aipsio::string_bytes(c.big, m.name).len() as int).string() == Ok::<
            (Seq<char>, Cursor),
            (AipsIoFault, Cursor),
        >(
            (
                m.version,
                r.1.skip(
                    aipsio::string_bytes(c.big, m.name).len() + aipsio::string_bytes(
                        c.big,
                        m.version,
                    ).len() as int,
                ),
            ),
        ),
        r.1.skip(
            aipsio::string_bytes(c.big, m.name).len() + aipsio::string_bytes(
                c.big,
                m.version,
            ).len() as int,
        ).string() == Ok::<(Seq<char>, Cursor), (AipsIoFault, Cursor)>(
            (m.comment, r.1.skip(texts_len(c.big, m))),
        ),
        r.1.skip(texts_len(c.big, m)).holds(k),
        r.1.skip(texts_len(c.big, m)).skip(k.len() as int).holds(p),
        r.1.skip(texts_len(c.big, m)).skip(k.len() as int).skip(p.len() as int).holds(
            aipsio::u32_bytes(c.big, crate::bytes::low32(m.columns.len() as int)),
        ),
        r.1.skip(texts_len(c.big, m)).skip(k.len() as int).skip(p.len() as int).skip(4).holds(cols),
        r.1.skip(texts_len(c.big, m)).skip(k.len() as int).skip(p.len() as int).skip(
            4 + cols.len() as int,
        ) == c.skip(
            aipsio::object_bytes(
                c.big,
                false,
                "TableDesc"@,
                2,
                tabledesc::table_desc_payload(c.big, m, k, p, cols),
            ).len() as int,
        ),
{
    let big = c.big;
    let n1 = aipsio::string_bytes(big, m.name);
    let n2 = aipsio::string_bytes(big, m.version);
    let n3 = aipsio::string_bytes(big, m.comment);
    let count = crate::bytes::low32(m.columns.len() as int);
    let n = aipsio::u32_bytes(big, count);
    reveal_strlit("TableDesc");
    vstd::utf8::is_ascii_chars_encode_utf8("TableDesc"@);
    aipsio::law_object_round_trip(
        c,
        false,
        "TableDesc"@,
        2,
        tabledesc::table_desc_payload(big, m, k, p, cols),
    );
    let (h, d) = c.object_start(false)->Ok_0;
    lemma_seven_parts(d, n1, n2, n3, k, p, n, cols);
    crate::bytes::lemma_uint_bytes_len(big, count as nat, 4);
    aipsio::law_string_round_trip(d, m.name);
    aipsio::law_string_round_trip(d.skip(n1.len() as int), m.version);
    aipsio::law_string_round_trip(d.skip(n1.len() as int).skip(n2.len() as int), m.comment);
    (h, d)
}

#[verifier::rlimit(40)]
proof fn lemma_table_desc_reads(
    d3: Cursor,
    m: TableDescModel,
    k: Seq<u8>,
    p: Seq<u8>,
    cols: Seq<u8>,
)
    requires
        0 <= d3.pos,
        table_desc_storable(m),
        recordout::record_bytes(d3.big, m.keywords) == Ok::<Seq<u8>, RecordFault>(k),
        recordout::record_bytes(d3.big, m.private_keywords) == Ok::<Seq<u8>, RecordFault>(p),
        tabledesc::columns_written(d3.big, m.columns, m.columns.len()) == Ok::<
            Seq<u8>,
            RecordFault,
        >(cols),
        d3.holds(k),
        d3.skip(k.len() as int).holds(p),
        d3.skip(k.len() as int).skip(p.len() as int).holds(
            aipsio::u32_bytes(d3.big, crate::bytes::low32(m.columns.len() as int)),
        ),
        d3.skip(k.len() as int).skip(p.len() as int).skip(4).holds(cols),
    ensures
        recordio::record_at(d3) == Ok::<(RecordModel, Cursor), (RecordFault, Cursor)>(
            (recordlaw::stored_record(m.keywords), d3.skip(k.len() as int)),
        ),
        recordio::record_at(d3.skip(k.len() as int)) == Ok::<
            (RecordModel, Cursor),
            (RecordFault, Cursor),
        >(
            (
                recordlaw::stored_record(m.private_keywords),
                d3.skip(k.len() as int).skip(p.len() as int),
            ),
        ),
        d3.skip(k.len() as int).skip(p.len() as int).u32() == Ok::<
            (u32, Cursor),
            (AipsIoFault, Cursor),
        >(
            (
                crate::bytes::low32(m.columns.len() as int),
                d3.skip(k.len() as int).skip(p.len() as int).skip(4),
            ),
        ),
        tabledesc::columns_at(
            d3.skip(k.len() as int).skip(p.len() as int).skip(4),
            crate::bytes::low32(m.columns.len() as int) as nat,
            Seq::empty(),
        ) == Ok::<(Seq<ColumnModel>, Cursor), (TableDescFault, Cursor)>(
            (
                stored_columns(m.columns),
                d3.skip(k.len() as int).skip(p.len() as int).skip(4 + cols.len() as int),
            ),
        ),
{
    let big = d3.big;
    recordlaw::law_record_round_trip(d3, m.keywords);
    recordlaw::law_record_round_trip(d3.skip(k.len() as int), m.private_keywords);
    let d5 = d3.skip(k.len() as int).skip(p.len() as int);
    lemma_count_and_columns(d5, m.columns, cols);
}

#[verifier::spinoff_prover]
proof fn lemma_count_and_columns(d: Cursor, cs: Seq<ColumnModel>, cols: Seq<u8>)
    requires
        0 <= d.pos,
        cs.len() <= u32::MAX,
        columns_storable(cs),
        tabledesc::columns_written(d.big, cs, cs.len()) == Ok::<Seq<u8>, RecordFault>(cols),
        d.holds(aipsio::u32_bytes(d.big, crate::bytes::low32(cs.len() as int))),
        d.skip(4).holds(cols),
    ensures
        d.u32() == Ok::<(u32, Cursor), (AipsIoFault, Cursor)>(
            (crate::bytes::low32(cs.len() as int), d.skip(4)),
        ),
        tabledesc::columns_at(
            d.skip(4),
            crate::bytes::low32(cs.len() as int) as nat,
            Seq::empty(),
        ) == Ok::<(Seq<ColumnModel>, Cursor), (TableDescFault, Cursor)>(
            (stored_columns(cs), d.skip(4 + cols.len() as int)),
        ),
{
    aipsio::law_u32_round_trip(d, crate::bytes::low32(cs.len() as int));
    lemma_all_columns(d.skip(4), cs, cols);
    assert(d.skip(4).skip(cols.len() as int) == d.skip(4 + cols.len() as int));
}

proof fn lemma_all_columns(d: Cursor, cs: Seq<ColumnModel>, cols: Seq<u8>)
    requires
        0 <= d.pos,
        columns_storable(cs),
        tabledesc::columns_written(d.big, cs, cs.len()) == Ok::<Seq<u8>, RecordFault>(cols),
        d.holds(cols),
    ensures
        tabledesc::columns_at(d, cs.len(), Seq::empty()) == Ok::<
            (Seq<ColumnModel>, Cursor),
            (TableDescFault, Cursor),
        >((stored_columns(cs), d.skip(cols.len() as int))),
{
    let rest = columns_rest(d.big, cs, 0);
    assert(cols == rest) by {
        lemma_columns_split(d.big, cs, 0);
        let none = tabledesc::columns_written(d.big, cs, 0)->Ok_0;
        assert(none == Seq::<u8>::empty());
        assert(none + rest =~= rest);
    }
    lemma_columns_round_trip(d, cs, 0, Seq::empty());
    assert(Seq::<ColumnModel>::empty() + stored_columns(cs).subrange(0, cs.len() as int)
        =~= stored_columns(cs));
}

} // verus!
