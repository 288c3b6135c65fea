//! What reading gives back of a written record.
use crate::aipsio;
use crate::aipsio::Cursor;
use crate::celllaw;
use crate::record;
use crate::record::{DataType, DescModel, FieldModel, RecordFault, RecordModel, ValueModel};
use crate::recordio;
use crate::recordout;
use crate::text;
use vstd::prelude::*;

verus! {

/// A text whose byte count fits a 32-bit length field.
pub open spec fn short_text(s: Seq<char>) -> bool {
    text::text_bytes(s).len() <= u32::MAX
}

/// A field description that can be read back: its texts fit their length
/// fields, it is no array field, and a record field's sub-description can be
/// read back too.
pub open spec fn field_storable(f: FieldModel) -> bool
    decreases f,
{
    &&& short_text(f.name)
    &&& short_text(f.comment)
    &&& short_text(recordout::table_name(f))
    &&& !record::array_type(f.data_type)
    &&& f.data_type == DataType::Record ==> match f.sub_desc {
        Some(m) => desc_storable(m),
        None => false,
    }
}

/// A description that can be read back.
pub open spec fn desc_storable(m: DescModel) -> bool
    decreases m,
{
    &&& m.fields.len() <= i32::MAX
    &&& forall|i: int| 0 <= i < m.fields.len() ==> field_storable(#[trigger] m.fields[i])
}

/// A field description as it is read back: only what its type calls for is
/// kept.
pub open spec fn stored_field(f: FieldModel) -> FieldModel
    decreases f,
{
    FieldModel {
        sub_desc: if f.data_type == DataType::Record {
            match f.sub_desc {
                Some(m) => Some(stored_desc(m)),
                None => None,
            }
        } else {
            None
        },
        shape: None,
        table_desc_name: if f.data_type == DataType::Table {
            Some(recordout::table_name(f))
        } else {
            None
        },
        ..f
    }
}

/// A description as it is read back.
pub open spec fn stored_desc(m: DescModel) -> DescModel
    decreases m,
{
    DescModel { fields: stored_fields(m.fields) }
}

pub open spec fn stored_fields(fs: Seq<FieldModel>) -> Seq<FieldModel>
    decreases fs,
{
    Seq::new(
        fs.len(),
        |i: int|
            if 0 <= i < fs.len() {
                stored_field(fs[i])
            } else {
                arbitrary()
            },
    )
}

/// The field descriptions from field `k` on.
spec fn fields_rest(big: bool, fs: Seq<FieldModel>, k: nat) -> Seq<u8>
    decreases fs.len() - k,
{
    if k >= fs.len() {
        Seq::empty()
    } else {
        recordout::field_bytes(big, fs[k as int]) + fields_rest(big, fs, k + 1)
    }
}

proof fn lemma_fields_split(big: bool, fs: Seq<FieldModel>, k: nat)
    requires
        k <= fs.len(),
    ensures
        recordout::fields_bytes(big, fs, fs.len()) == recordout::fields_bytes(big, fs, k)
            + fields_rest(big, fs, k),
    decreases fs.len() - k,
{
    if k < fs.len() {
        lemma_fields_split(big, fs, k + 1);
        assert(recordout::fields_bytes(big, fs, k + 1) + fields_rest(big, fs, k + 1)
            =~= recordout::fields_bytes(big, fs, k) + fields_rest(big, fs, k));
    } else {
        assert(recordout::fields_bytes(big, fs, k) + fields_rest(big, fs, k)
            =~= recordout::fields_bytes(big, fs, k));
    }
}

/// Reading back a written description gives the description, reduced to what
/// the field types call for.
pub proof fn law_desc_round_trip(c: Cursor, m: DescModel)
    requires
        0 <= c.pos,
        desc_storable(m),
        c.holds(recordout::desc_bytes(c.big, m)),
    ensures
        recordio::desc_at(c) == Ok::<(DescModel, Cursor), (RecordFault, Cursor)>(
            (stored_desc(m), c.skip(recordout::desc_bytes(c.big, m).len() as int)),
        ),
    decreases m, 2nat, 0nat,
{
    let big = c.big;
    let fs = m.fields;
    let n = fs.len() as i32;
    let head = aipsio::i32_bytes(big, n);
    let payload = head + recordout::fields_bytes(big, fs, fs.len());
    lemma_known_names();
    aipsio::law_object_round_trip(c, false, "RecordDesc"@, 2, payload);
    let (h, d) = c.object(false, "RecordDesc"@)->Ok_0;
    aipsio::lemma_holds_concat(d, head, recordout::fields_bytes(big, fs, fs.len()));
    aipsio::law_i32_round_trip(d, n);
    crate::bytes::lemma_uint_bytes_len(big, crate::bytes::pattern32(n) as nat, 4);
    let e = d.skip(4);
    lemma_fields_split(big, fs, 0);
    assert(recordout::fields_bytes(big, fs, fs.len()) =~= fields_rest(big, fs, 0));
    lemma_fields_round_trip(e, c.pos, m, 0, Seq::empty());
    assert(Seq::<FieldModel>::empty() + stored_fields(fs).subrange(0, fs.len() as int)
        =~= stored_fields(fs));
}

/// The object type names fit their length fields.
pub proof fn lemma_known_names()
    ensures
        short_text("RecordDesc"@),
        short_text("TableRecord"@),
{
    reveal_strlit("RecordDesc");
    reveal_strlit("TableRecord");
    vstd::utf8::is_ascii_chars_encode_utf8("RecordDesc"@);
    vstd::utf8::is_ascii_chars_encode_utf8("TableRecord"@);
}

proof fn lemma_fields_round_trip(c: Cursor, base: int, m: DescModel, k: nat, acc: Seq<FieldModel>)
    requires
        0 <= base < c.pos,
        desc_storable(m),
        k <= m.fields.len(),
        c.holds(fields_rest(c.big, m.fields, k)),
    ensures
        recordio::fields_at(c, base, 2, (m.fields.len() - k) as nat, acc) == Ok::<
            (Seq<FieldModel>, Cursor),
            (RecordFault, Cursor),
        >(
            (
                acc + stored_fields(m.fields).subrange(k as int, m.fields.len() as int),
                c.skip(fields_rest(c.big, m.fields, k).len() as int),
            ),
        ),
    decreases m, 1nat, m.fields.len() - k,
{
    let fs = m.fields;
    let n = fs.len();
    if k == n {
        assert(acc + stored_fields(fs).subrange(k as int, n as int) =~= acc);
    } else {
        let f = fs[k as int];
        let b = recordout::field_bytes(c.big, f);
        aipsio::lemma_holds_concat(c, b, fields_rest(c.big, fs, k + 1));
        lemma_field_round_trip(c, base, m, k);
        let d = c.skip(b.len() as int);
        lemma_fields_round_trip(d, base, m, k + 1, acc.push(stored_field(f)));
        assert(acc.push(stored_field(f)) + stored_fields(fs).subrange(k as int + 1, n as int) =~= acc
            + stored_fields(fs).subrange(k as int, n as int));
    }
}

#[verifier::rlimit(40)]
proof fn lemma_field_round_trip(c: Cursor, base: int, m: DescModel, k: nat)
    requires
        0 <= base < c.pos,
        desc_storable(m),
        k < m.fields.len(),
        c.holds(recordout::field_bytes(c.big, m.fields[k as int])),
    ensures
        recordio::field_at(c, base, 2) == Ok::<(FieldModel, Cursor), (RecordFault, Cursor)>(
            (
                stored_field(m.fields[k as int]),
                c.skip(recordout::field_bytes(c.big, m.fields[k as int]).len() as int),
            ),
        ),
    decreases m, 0nat, 0nat,
{
    let big = c.big;
    let f = m.fields[k as int];
    let dt = f.data_type;
    let code = record::type_code(dt);
    let n1 = aipsio::string_bytes(big, f.name);
    let n2 = aipsio::i32_bytes(big, code);
    let n3 = recordout::field_extra_bytes(big, f);
    let n4 = aipsio::string_bytes(big, f.comment);
    aipsio::lemma_holds_concat(c, n1 + n2 + n3, n4);
    aipsio::lemma_holds_concat(c, n1 + n2, n3);
    aipsio::lemma_holds_concat(c, n1, n2);
    aipsio::law_string_round_trip(c, f.name);
    let c1 = c.skip(n1.len() as int);
    aipsio::law_i32_round_trip(c1, code);
    crate::bytes::lemma_uint_bytes_len(big, crate::bytes::pattern32(code) as nat, 4);
    record::law_type_codes(dt, dt);
    let c2 = c1.skip(4);
    assert(c2 == c.skip((n1 + n2).len() as int));
    let c3 = c2.skip(n3.len() as int);
    assert(c3 == c.skip((n1 + n2 + n3).len() as int));
    if dt == DataType::Record {
        law_desc_round_trip(c2, f.sub_desc->0);
    } else if dt == DataType::Table {
        aipsio::law_string_round_trip(c2, recordout::table_name(f));
    }
    aipsio::law_string_round_trip(c3, f.comment);
    assert(c3.skip(n4.len() as int) == c.skip((n1 + n2 + n3 + n4).len() as int));
}

/// A scalar that is exactly of the given type.
pub open spec fn scalar_fits(dt: DataType, v: ValueModel) -> bool {
    match dt {
        DataType::Bool => v is Bool,
        DataType::Char | DataType::UChar => v is UChar,
        DataType::Short => v is Short,
        DataType::UShort => v is UShort,
        DataType::Int => v is Int,
        DataType::UInt => v is UInt,
        DataType::Int64 => v is Int64,
        DataType::Float => v is Float,
        DataType::Double => v is Double,
        DataType::Complex => v is Complex,
        DataType::DComplex => v is DComplex,
        DataType::String => v matches ValueModel::String(s) && short_text(s),
        _ => false,
    }
}

/// A written scalar is read back.
#[verifier::rlimit(40)]
pub proof fn law_scalar_round_trip(c: Cursor, dt: DataType, v: ValueModel)
    requires
        0 <= c.pos,
        scalar_fits(dt, v),
        c.holds(recordout::scalar_bytes(c.big, dt, v)),
    ensures
        recordio::scalar_at(c, dt) == Ok::<(ValueModel, Cursor), (RecordFault, Cursor)>(
            (v, c.skip(recordout::scalar_bytes(c.big, dt, v).len() as int)),
        ),
{
    let big = c.big;
    match v {
        ValueModel::Bool(b) => aipsio::law_bool_round_trip(c, b),
        ValueModel::UChar(x) => aipsio::law_u8_round_trip(c, x),
        ValueModel::Short(x) => {
            aipsio::law_i16_round_trip(c, x);
            crate::bytes::lemma_uint_bytes_len(big, crate::bytes::pattern16(x) as nat, 2);
        },
        ValueModel::UShort(x) => {
            aipsio::law_u16_round_trip(c, x);
            crate::bytes::lemma_uint_bytes_len(big, x as nat, 2);
        },
        ValueModel::Int(x) => {
            aipsio::law_i32_round_trip(c, x);
            crate::bytes::lemma_uint_bytes_len(big, crate::bytes::pattern32(x) as nat, 4);
        },
        ValueModel::UInt(x) => {
            aipsio::law_u32_round_trip(c, x);
            crate::bytes::lemma_uint_bytes_len(big, x as nat, 4);
        },
        ValueModel::Float(x) => {
            aipsio::law_u32_round_trip(c, x);
            crate::bytes::lemma_uint_bytes_len(big, x as nat, 4);
        },
        ValueModel::Int64(x) => {
            aipsio::law_i64_round_trip(c, x);
            crate::bytes::lemma_uint_bytes_len(big, crate::bytes::pattern64(x) as nat, 8);
        },
        ValueModel::Double(x) => {
            aipsio::law_u64_round_trip(c, x);
            crate::bytes::lemma_uint_bytes_len(big, x as nat, 8);
        },
        ValueModel::Complex(x, y) => {
            aipsio::lemma_holds_concat(c, aipsio::u32_bytes(big, x), aipsio::u32_bytes(big, y));
            crate::bytes::lemma_uint_bytes_len(big, x as nat, 4);
            crate::bytes::lemma_uint_bytes_len(big, y as nat, 4);
            aipsio::law_u32_round_trip(c, x);
            aipsio::law_u32_round_trip(c.skip(4), y);
        },
        ValueModel::DComplex(x, y) => {
            aipsio::lemma_holds_concat(c, aipsio::u64_bytes(big, x), aipsio::u64_bytes(big, y));
            crate::bytes::lemma_uint_bytes_len(big, x as nat, 8);
            crate::bytes::lemma_uint_bytes_len(big, y as nat, 8);
            aipsio::law_u64_round_trip(c, x);
            aipsio::law_u64_round_trip(c.skip(8), y);
        },
        ValueModel::String(s) => aipsio::law_string_round_trip(c, s),
        _ => {},
    }
}

/// A value that can be read back as the value of field `f`.
pub open spec fn value_storable(f: FieldModel, v: ValueModel) -> bool
    decreases v,
{
    match v {
        ValueModel::Record(sub) => {
            &&& f.data_type == DataType::Record
            &&& f.sub_desc == Some(sub.desc)
            &&& record_storable(sub)
        },
        ValueModel::Table(s) => f.data_type == DataType::Table && short_text(s),
        _ => scalar_fits(f.data_type, v),
    }
}

/// A record that can be read back: its description can, no two fields share
/// a name, and every field has a value of its type.
#[verifier::opaque]
pub open spec fn record_storable(m: RecordModel) -> bool
    decreases m,
{
    &&& desc_storable(m.desc)
    &&& record::distinct_names(m.desc.fields)
    &&& m.aligned()
    &&& forall|i: int|
        0 <= i < m.values.len() ==> value_storable(m.desc.fields[i], #[trigger] m.values[i])
}

/// A value as it is read back.
pub open spec fn stored_value(v: ValueModel) -> ValueModel
    decreases v,
{
    match v {
        ValueModel::Record(sub) => if sub.desc.fields.len() == 0 {
            ValueModel::Record(stored_record(sub))
        } else {
            ValueModel::Record(RecordModel { record_type: 0, ..stored_record(sub) })
        },
        _ => v,
    }
}

/// A record as it is read back: descriptions reduced to what the field types
/// call for, and the record type of nested records with fields, which is not
/// stored, as 0.
pub open spec fn stored_record(m: RecordModel) -> RecordModel
    decreases m,
{
    RecordModel {
        desc: stored_desc(m.desc),
        record_type: m.record_type,
        values: stored_values(m.values),
    }
}

pub open spec fn stored_values(vs: Seq<ValueModel>) -> Seq<ValueModel>
    decreases vs,
{
    Seq::new(
        vs.len(),
        |i: int|
            if 0 <= i < vs.len() {
                stored_value(vs[i])
            } else {
                arbitrary()
            },
    )
}

/// The bytes of the values from value `k` on.
spec fn values_rest(big: bool, m: RecordModel, k: nat) -> Seq<u8>
    decreases m.values.len() - k,
{
    if k >= m.values.len() {
        Seq::empty()
    } else {
        recordout::bare_value_bytes(big, m, k as int)->Ok_0 + values_rest(big, m, k + 1)
    }
}

/// A record that can be read back can be written.
pub proof fn lemma_record_written(big: bool, m: RecordModel)
    requires
        record_storable(m),
    ensures
        recordout::record_bytes(big, m) is Ok,
        recordout::values_bytes(big, m, m.values.len()) == recordout::bare_values_bytes(
            big,
            m,
            m.values.len(),
        ),
        recordout::bare_values_bytes(big, m, m.values.len()) is Ok,
        recordout::nested_bytes(big, m) is Ok,
        forall|i: int|
            0 <= i < m.values.len() ==> (#[trigger] recordout::bare_value_bytes(big, m, i)) is Ok,
    decreases m, 1nat,
{
    reveal(record_storable);
    let n = m.values.len();
    assert forall|i: int| 0 <= i < n implies (#[trigger] recordout::bare_value_bytes(big, m, i)) is Ok
        && recordout::value_bytes(big, m, i) == recordout::bare_value_bytes(big, m, i) by {
        lemma_value_written(big, m, i);
    }
    lemma_values_written(big, m, n);
    assert(!recordout::lacks_sub_desc(m.desc.fields)) by {
        assert forall|i: int| 0 <= i < m.desc.fields.len() implies !((
        #[trigger] m.desc.fields[i]).data_type == DataType::Record && m.desc.fields[i].sub_desc is None)
            by {
            assert(field_storable(m.desc.fields[i]));
        }
    }
}

proof fn lemma_values_written(big: bool, m: RecordModel, n: nat)
    requires
        n <= m.values.len(),
        forall|i: int|
            0 <= i < m.values.len() ==> (#[trigger] recordout::bare_value_bytes(big, m, i)) is Ok
                && recordout::value_bytes(big, m, i) == recordout::bare_value_bytes(big, m, i),
    ensures
        recordout::bare_values_bytes(big, m, n) is Ok,
        recordout::values_bytes(big, m, n) == recordout::bare_values_bytes(big, m, n),
    decreases n,
{
    if n > 0 {
        lemma_values_written(big, m, (n - 1) as nat);
        assert(recordout::bare_value_bytes(big, m, n - 1) is Ok);
    }
}

/// Fields of a record that can be read back are found by their names.
proof fn lemma_found(m: RecordModel, i: int)
    requires
        record_storable(m),
        0 <= i < m.values.len(),
    ensures
        record::field_index(m.desc.fields, m.desc.fields[i].name) == Some(i),
        value_storable(m.desc.fields[i], m.values[i]),
        field_storable(m.desc.fields[i]),
{
    reveal(record_storable);
    let fs = m.desc.fields;
    assert forall|j: int| 0 <= j < i implies (#[trigger] fs[j]).name != fs[i].name by {}
    record::lemma_field_index(fs, fs[i].name, i);
}

proof fn lemma_value_written(big: bool, m: RecordModel, i: int)
    requires
        record_storable(m),
        0 <= i < m.values.len(),
    ensures
        recordout::bare_value_bytes(big, m, i) is Ok,
        recordout::value_bytes(big, m, i) == recordout::bare_value_bytes(big, m, i),
    decreases m, 0nat,
{
    reveal(record_storable);
    lemma_found(m, i);
    if let ValueModel::Record(sub) = m.values[i] {
        lemma_record_written(big, sub);
    }
}

#[verifier::spinoff_prover]
#[verifier::rlimit(60)]
proof fn lemma_values_split(big: bool, m: RecordModel, k: nat)
    requires
        record_storable(m),
        k <= m.values.len(),
    ensures
        recordout::bare_values_bytes(big, m, m.values.len())->Ok_0
            == recordout::bare_values_bytes(big, m, k)->Ok_0 + values_rest(big, m, k),
        recordout::bare_values_bytes(big, m, k) is Ok,
    decreases m.values.len() - k,
{
    reveal(record_storable);
    lemma_record_written(big, m);
    if k < m.values.len() {
        lemma_values_split(big, m, k + 1);
        let b = recordout::bare_values_bytes(big, m, k)->Ok_0;
        let x = recordout::bare_value_bytes(big, m, k as int)->Ok_0;
        assert(recordout::bare_values_bytes(big, m, k + 1) is Ok);
        assert((b + x) + values_rest(big, m, k + 1) =~= b + values_rest(big, m, k));
    } else {
        assert(recordout::bare_values_bytes(big, m, k)->Ok_0 + values_rest(big, m, k)
            =~= recordout::bare_values_bytes(big, m, k)->Ok_0);
    }
}

proof fn lemma_record_assembled(
    c: Cursor,
    head: aipsio::ObjectHead,
    d: Cursor,
    desc: DescModel,
    d1: Cursor,
    record_type: i32,
    values: Seq<ValueModel>,
    d3: Cursor,
)
    requires
        0 <= c.pos <= c.data.len(),
        c.object_start(false) == Ok::<
            (aipsio::ObjectHead, Cursor),
            (aipsio::AipsIoFault, Cursor),
        >((head, d)),
        head.object_type == "TableRecord"@,
        recordio::desc_at(d) == Ok::<(DescModel, Cursor), (RecordFault, Cursor)>((desc, d1)),
        d1.i32() == Ok::<(i32, Cursor), (aipsio::AipsIoFault, Cursor)>((record_type, d1.skip(4))),
        d1.data == c.data,
        c.pos < d1.pos && d1.pos + 4 <= c.data.len(),
        recordio::values_at(d1.skip(4), c.pos, desc.fields, 0, Seq::empty()) == Ok::<
            (Seq<ValueModel>, Cursor),
            (RecordFault, Cursor),
        >((values, d3)),
    ensures
        recordio::record_at(c) == Ok::<(RecordModel, Cursor), (RecordFault, Cursor)>(
            (RecordModel { desc, record_type, values }, d3),
        ),
{
    let start = recordio::lift(c.object_start(false));
    assert(start is Ok && start->Ok_0.0 == head && start->Ok_0.1 == d);
    let kind = recordio::lift(d1.i32());
    assert(kind is Ok && kind->Ok_0.0 == record_type && kind->Ok_0.1 == d1.skip(4));
    assert(d1.skip(4).data == c.data);
}

#[verifier::rlimit(40)]
proof fn lemma_record_parts(c: Cursor, db: Seq<u8>, record_type: i32, vb: Seq<u8>) -> (r: (
    aipsio::ObjectHead,
    Cursor,
))
    requires
        0 <= c.pos,
        c.holds(
            aipsio::object_bytes(
                c.big,
                false,
                "TableRecord"@,
                1,
                db + aipsio::i32_bytes(c.big, record_type) + vb,
            ),
        ),
    ensures
        c.object_start(false) == Ok::<
            (aipsio::ObjectHead, Cursor),
            (aipsio::AipsIoFault, Cursor),
        >(r),
        r.0.object_type == "TableRecord"@,
        r.1.data == c.data,
        r.1.big == c.big,
        r.1.pos > c.pos,
        r.1.holds(db),
        r.1.skip(db.len() as int).i32() == Ok::<(i32, Cursor), (aipsio::AipsIoFault, Cursor)>(
            (record_type, r.1.skip(db.len() as int + 4)),
        ),
        r.1.skip(db.len() as int + 4).holds(vb),
        r.1.skip(db.len() as int + 4 + vb.len() as int) == c.skip(
            aipsio::object_bytes(
                c.big,
                false,
                "TableRecord"@,
                1,
                db + aipsio::i32_bytes(c.big, record_type) + vb,
            ).len() as int,
        ),
{
    let big = c.big;
    let tb = aipsio::i32_bytes(big, record_type);
    lemma_known_names();
    aipsio::law_object_round_trip(c, false, "TableRecord"@, 1, db + tb + vb);
    let (h, d) = c.object_start(false)->Ok_0;
    aipsio::lemma_holds_concat(d, db + tb, vb);
    aipsio::lemma_holds_concat(d, db, tb);
    let d1 = d.skip(db.len() as int);
    aipsio::law_i32_round_trip(d1, record_type);
    crate::bytes::lemma_uint_bytes_len(big, crate::bytes::pattern32(record_type) as nat, 4);
    assert(d1.skip(4) == d.skip((db + tb).len() as int));
    (h, d)
}

/// A record whose fields are distinct and hold values of their types is
/// written, and reading gives it back.
#[verifier::rlimit(40)]
pub proof fn law_record_round_trip(c: Cursor, m: RecordModel)
    requires
        0 <= c.pos,
        record_storable(m),
        recordout::record_bytes(c.big, m) matches Ok(b) ==> c.holds(b),
    ensures
        recordout::record_bytes(c.big, m) matches Ok(b) && recordio::record_at(c) == Ok::<
            (RecordModel, Cursor),
            (RecordFault, Cursor),
        >((stored_record(m), c.skip(b.len() as int))),
    decreases m, 3nat, 0nat,
{
    reveal(record_storable);
    let big = c.big;
    lemma_record_written(big, m);
    let vb = recordout::values_bytes(big, m, m.desc.fields.len())->Ok_0;
    let db = recordout::desc_bytes(big, m.desc);
    let (h, d) = lemma_record_parts(c, db, m.record_type, vb);
    law_desc_round_trip(d, m.desc);
    let d1 = d.skip(db.len() as int);
    let d2 = d.skip(db.len() as int + 4);
    lemma_values_split(big, m, 0);
    assert(vb =~= values_rest(big, m, 0));
    lemma_values_round_trip(d2, c.pos, m, 0, Seq::empty());
    assert(Seq::<ValueModel>::empty() + stored_values(m.values).subrange(0, m.values.len() as int)
        =~= stored_values(m.values));
    let d3 = d2.skip(vb.len() as int);
    lemma_record_assembled(
        c,
        h,
        d,
        stored_desc(m.desc),
        d1,
        m.record_type,
        stored_values(m.values),
        d3,
    );
}

#[verifier::rlimit(40)]
proof fn lemma_values_round_trip(
    c: Cursor,
    base: int,
    m: RecordModel,
    k: nat,
    acc: Seq<ValueModel>,
)
    requires
        0 <= base < c.pos,
        record_storable(m),
        k <= m.values.len(),
        c.holds(values_rest(c.big, m, k)),
    ensures
        recordio::values_at(c, base, stored_fields(m.desc.fields), k, acc) == Ok::<
            (Seq<ValueModel>, Cursor),
            (RecordFault, Cursor),
        >(
            (
                acc + stored_values(m.values).subrange(k as int, m.values.len() as int),
                c.skip(values_rest(c.big, m, k).len() as int),
            ),
        ),
    decreases m, 2nat, m.values.len() - k,
{
    reveal(record_storable);
    let n = m.values.len();
    let fs = stored_fields(m.desc.fields);
    if k == n {
        assert(acc + stored_values(m.values).subrange(k as int, n as int) =~= acc);
    } else {
        let v = m.values[k as int];
        let b = recordout::bare_value_bytes(c.big, m, k as int)->Ok_0;
        aipsio::lemma_holds_concat(c, b, values_rest(c.big, m, k + 1));
        lemma_value_round_trip(c, base, m, k);
        let d = c.skip(b.len() as int);
        lemma_values_round_trip(d, base, m, k + 1, acc.push(stored_value(v)));
        assert(acc.push(stored_value(v)) + stored_values(m.values).subrange(k as int + 1, n as int)
            =~= acc + stored_values(m.values).subrange(k as int, n as int));
    }
}

#[verifier::rlimit(40)]
proof fn lemma_value_round_trip(c: Cursor, base: int, m: RecordModel, k: nat)
    requires
        0 <= base < c.pos,
        record_storable(m),
        k < m.values.len(),
        c.holds(recordout::bare_value_bytes(c.big, m, k as int)->Ok_0),
    ensures
        recordio::value_at(c, base, stored_field(m.desc.fields[k as int])) == Ok::<
            (ValueModel, Cursor),
            (RecordFault, Cursor),
        >(
            (
                stored_value(m.values[k as int]),
                c.skip(recordout::bare_value_bytes(c.big, m, k as int)->Ok_0.len() as int),
            ),
        ),
    decreases m, 1nat, 0nat,
{
    reveal(record_storable);
    let big = c.big;
    lemma_found(m, k as int);
    lemma_value_written(big, m, k as int);
    let f = m.desc.fields[k as int];
    match m.values[k as int] {
        ValueModel::Record(sub) => {
            lemma_record_written(big, sub);
            if sub.desc.fields.len() == 0 {
                law_record_round_trip(c, sub);
            } else {
                lemma_values_split(big, sub, 0);
                assert(recordout::bare_values_bytes(big, sub, sub.values.len())->Ok_0
                    =~= values_rest(big, sub, 0));
                lemma_values_round_trip(c, base, sub, 0, Seq::empty());
                assert(Seq::<ValueModel>::empty() + stored_values(sub.values).subrange(
                    0,
                    sub.values.len() as int,
                ) =~= stored_values(sub.values));
            }
        },
        ValueModel::Table(s) => aipsio::law_string_round_trip(c, s),
        v => law_scalar_round_trip(c, f.data_type, v),
    }
}

/// The whole number that a value is.
pub open spec fn whole_number(v: ValueModel) -> Option<int> {
    match v {
        ValueModel::Bool(b) => Some(
            if b {
                1
            } else {
                0
            },
        ),
        ValueModel::UChar(x) => Some(x as int),
        ValueModel::Short(x) => Some(x as int),
        ValueModel::UShort(x) => Some(x as int),
        ValueModel::Int(x) => Some(x as int),
        ValueModel::UInt(x) => Some(x as int),
        ValueModel::Int64(x) => Some(x as int),
        _ => None,
    }
}

/// A number that a type can hold.
pub open spec fn in_type(dt: DataType, n: int) -> bool {
    match dt {
        DataType::Char | DataType::UChar => 0 <= n <= 255,
        DataType::Short => -0x8000 <= n <= 0x7fff,
        DataType::UShort => 0 <= n <= 0xffff,
        DataType::Int => -0x8000_0000 <= n <= 0x7fff_ffff,
        DataType::UInt => 0 <= n <= 0xffff_ffff,
        DataType::Int64 => true,
        _ => false,
    }
}

/// A value of another whole type that is stored in a type as the same number.
pub open spec fn close_types(dt: DataType, v: ValueModel) -> bool {
    match dt {
        DataType::Char | DataType::UChar => v is UChar || v is Bool || v is Int || v is Short,
        DataType::Short => v is Short || v is Int || v is UShort,
        DataType::UShort => v is UShort || v is Short || v is UInt || v is Int,
        DataType::Int => v is Int || v is Short || v is UShort || v is UChar || v is Bool,
        DataType::UInt => v is UInt || v is Int,
        DataType::Int64 => v is Int64 || v is Int,
        _ => false,
    }
}

/// A whole number that is written as a close type is read back as the same
/// number, of that type.
#[verifier::rlimit(40)]
pub proof fn law_number_converted(c: Cursor, dt: DataType, v: ValueModel)
    requires
        0 <= c.pos,
        close_types(dt, v),
        in_type(dt, whole_number(v)->0),
        c.holds(recordout::scalar_bytes(c.big, dt, v)),
    ensures
        recordio::scalar_at(c, dt) matches Ok((w, _)) && scalar_fits(dt, w) && whole_number(w)
            == whole_number(v),
{
    let n = whole_number(v)->0;
    let w = match dt {
        DataType::Char | DataType::UChar => ValueModel::UChar(n as u8),
        DataType::Short => ValueModel::Short(n as i16),
        DataType::UShort => ValueModel::UShort(n as u16),
        DataType::Int => ValueModel::Int(n as i32),
        DataType::UInt => ValueModel::UInt(n as u32),
        _ => ValueModel::Int64(n as i64),
    };
    assert(recordout::scalar_bytes(c.big, dt, v) == recordout::scalar_bytes(c.big, dt, w));
    law_scalar_round_trip(c, dt, w);
}

/// A truth value that is written is read back; a number counts as true where it
/// is not zero.
pub proof fn law_truth_converted(c: Cursor, v: ValueModel)
    requires
        0 <= c.pos,
        v is Bool || v is UChar || v is Int,
        c.holds(recordout::scalar_bytes(c.big, DataType::Bool, v)),
    ensures
        recordio::scalar_at(c, DataType::Bool) matches Ok((ValueModel::Bool(b), _)) && b == (
        whole_number(v)->0 != 0),
{
    let w = ValueModel::Bool(whole_number(v)->0 != 0);
    assert(recordout::scalar_bytes(c.big, DataType::Bool, v) == recordout::scalar_bytes(
        c.big,
        DataType::Bool,
        w,
    ));
    law_scalar_round_trip(c, DataType::Bool, w);
}

/// The type inferred for a value is one that holds it: a scalar's own, or the
/// array type of an array's elements.
pub proof fn law_inferred_type(v: ValueModel)
    ensures
        !(v is Array) && !(v is String) && !(v is Table) && !(v is Record) ==> scalar_fits(
            record::inferred_type(v),
            v,
        ),
        v is String ==> record::inferred_type(v) == DataType::String,
        v is Table ==> record::inferred_type(v) == DataType::Table,
        v is Record ==> record::inferred_type(v) == DataType::Record,
        v matches ValueModel::Array(a) ==> record::array_type(record::inferred_type(v))
            && celllaw::elements_fit(record::element_of(record::inferred_type(v)), a.data) || a.data
            is String,
        v matches ValueModel::Array(a) && a.data is String ==> record::inferred_type(v)
            == DataType::ArrayString,
{
}

} // verus!
