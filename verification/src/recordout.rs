//! Writing records: the inverse of reading them.
use crate::aipsio;
use crate::aipsio::Writer;
use crate::record;
use crate::record::{
    data_type_code, DataType, DescModel, FieldModel, RecordDesc, RecordDescField, RecordError,
    RecordFault, RecordModel, RecordValue, TableRecord, ValueModel,
};
use crate::recordio;
use vstd::prelude::*;

verus! {

/// Writing `v` as a `dt` would change the width of a floating-point number.
pub open spec fn needs_float_cast(dt: DataType, v: ValueModel) -> bool {
    match dt {
        DataType::Float => v is Double,
        DataType::Double => v is Float,
        DataType::Complex => v is DComplex,
        DataType::DComplex => v is Complex,
        _ => false,
    }
}

/// The bytes of a scalar value of type `dt`. A value of another type is
/// converted where the types are close, and stands as zero otherwise.
pub open spec fn scalar_bytes(big: bool, dt: DataType, v: ValueModel) -> Seq<u8> {
    match dt {
        DataType::Bool => aipsio::bool_bytes(
            match v {
                ValueModel::Bool(b) => b,
                ValueModel::UChar(u) => u != 0,
                ValueModel::Int(i) => i != 0,
                _ => false,
            },
        ),
        DataType::Char | DataType::UChar => aipsio::u8_bytes(
            match v {
                ValueModel::UChar(u) => u,
                ValueModel::Bool(b) => if b {
                    1u8
                } else {
                    0u8
                },
                ValueModel::Int(i) => i as u8,
                ValueModel::Short(i) => i as u8,
                _ => 0u8,
            },
        ),
        DataType::Short => aipsio::i16_bytes(
            big,
            match v {
                ValueModel::Short(i) => i,
                ValueModel::Int(i) => i as i16,
                ValueModel::UShort(u) => u as i16,
                _ => 0i16,
            },
        ),
        DataType::UShort => aipsio::u16_bytes(
            big,
            match v {
                ValueModel::UShort(u) => u,
                ValueModel::Short(i) => i as u16,
                ValueModel::UInt(u) => u as u16,
                ValueModel::Int(i) => i as u16,
                _ => 0u16,
            },
        ),
        DataType::Int => aipsio::i32_bytes(
            big,
            match v {
                ValueModel::Int(i) => i,
                ValueModel::Short(i) => i as i32,
                ValueModel::UShort(u) => u as i32,
                ValueModel::UChar(u) => u as i32,
                ValueModel::Bool(b) => if b {
                    1i32
                } else {
                    0i32
                },
                _ => 0i32,
            },
        ),
        DataType::UInt => aipsio::u32_bytes(
            big,
            match v {
                ValueModel::UInt(u) => u,
                ValueModel::Int(i) => i as u32,
                _ => 0u32,
            },
        ),
        DataType::Int64 => aipsio::i64_bytes(
            big,
            match v {
                ValueModel::Int(i) => i as i64,
                ValueModel::Int64(i) => i,
                _ => 0i64,
            },
        ),
        DataType::Float => aipsio::u32_bytes(
            big,
            match v {
                ValueModel::Float(f) => f,
                _ => 0u32,
            },
        ),
        DataType::Double => aipsio::u64_bytes(
            big,
            match v {
                ValueModel::Double(d) => d,
                _ => 0u64,
            },
        ),
        DataType::Complex => match v {
            ValueModel::Complex(re, im) => aipsio::u32_bytes(big, re) + aipsio::u32_bytes(big, im),
            _ => aipsio::u32_bytes(big, 0) + aipsio::u32_bytes(big, 0),
        },
        DataType::DComplex => match v {
            ValueModel::DComplex(re, im) => aipsio::u64_bytes(big, re) + aipsio::u64_bytes(big, im),
            _ => aipsio::u64_bytes(big, 0) + aipsio::u64_bytes(big, 0),
        },
        DataType::String | DataType::Table => match v {
            ValueModel::String(s) => aipsio::string_bytes(big, s),
            ValueModel::Table(s) => aipsio::string_bytes(big, s),
            _ => aipsio::string_bytes(big, ""@),
        },
        _ => Seq::empty(),
    }
}

/// Whether writing `value` as a `dt` would change the width of a
/// floating-point number, which is the caller's to do.
pub fn is_float_cast(dt: DataType, value: &RecordValue) -> (r: bool)
    ensures
        r == needs_float_cast(dt, value@),
{
    match dt {
        DataType::Float => matches!(value, RecordValue::Double(_)),
        DataType::Double => matches!(value, RecordValue::Float(_)),
        DataType::Complex => matches!(value, RecordValue::DComplex(_, _)),
        DataType::DComplex => matches!(value, RecordValue::Complex(_, _)),
        _ => false,
    }
}

/// Write a scalar value of the given (non-array) type, in the form that
/// `read_scalar_value` reads.
pub fn write_scalar_value(w: &mut Writer, dt: DataType, value: &RecordValue)
    requires
        !needs_float_cast(dt, value@),
    ensures
        final(w)@ == old(w)@.put(scalar_bytes(old(w)@.big, dt, value@)),
{
    let ghost start = w@;
    match dt {
        DataType::Bool => match value {
            RecordValue::Bool(b) => w.put_bool(*b),
            RecordValue::UChar(u) => w.put_bool(*u != 0),
            RecordValue::Int(i) => w.put_bool(*i != 0),
            _ => w.put_bool(false),
        },
        DataType::Char | DataType::UChar => match value {
            RecordValue::UChar(u) => w.put_u8(*u),
            RecordValue::Bool(b) => w.put_u8(if *b { 1 } else { 0 }),
            RecordValue::Int(i) => w.put_u8(*i as u8),
            RecordValue::Short(i) => w.put_u8(*i as u8),
            _ => w.put_u8(0),
        },
        DataType::Short => match value {
            RecordValue::Short(i) => w.put_i16(*i),
            RecordValue::Int(i) => w.put_i16(*i as i16),
            RecordValue::UShort(u) => w.put_i16(*u as i16),
            _ => w.put_i16(0),
        },
        DataType::UShort => match value {
            RecordValue::UShort(u) => w.put_u16(*u),
            RecordValue::Short(i) => w.put_u16(*i as u16),
            RecordValue::UInt(u) => w.put_u16(*u as u16),
            RecordValue::Int(i) => w.put_u16(*i as u16),
            _ => w.put_u16(0),
        },
        DataType::Int => match value {
            RecordValue::Int(i) => w.put_i32(*i),
            RecordValue::Short(i) => w.put_i32(*i as i32),
            RecordValue::UShort(u) => w.put_i32(*u as i32),
            RecordValue::UChar(u) => w.put_i32(*u as i32),
            RecordValue::Bool(b) => w.put_i32(if *b { 1 } else { 0 }),
            _ => w.put_i32(0),
        },
        DataType::UInt => match value {
            RecordValue::UInt(u) => w.put_u32(*u),
            RecordValue::Int(i) => w.put_u32(*i as u32),
            _ => w.put_u32(0),
        },
        DataType::Int64 => match value {
            RecordValue::Int(i) => w.put_i64(*i as i64),
            RecordValue::Int64(i) => w.put_i64(*i),
            _ => w.put_i64(0),
        },
        DataType::Float => match value {
            RecordValue::Float(f) => w.put_f32(*f),
            _ => w.put_f32(0),
        },
        DataType::Double => match value {
            RecordValue::Double(d) => w.put_f64(*d),
            _ => w.put_f64(0),
        },
        DataType::Complex => {
            let (re, im) = match value {
                RecordValue::Complex(re, im) => (*re, *im),
                _ => (0u32, 0u32),
            };
            w.put_f32(re);
            w.put_f32(im);
            proof {
                aipsio::lemma_sheet_put(
                    start,
                    aipsio::u32_bytes(start.big, re),
                    aipsio::u32_bytes(start.big, im),
                );
            }
        },
        DataType::DComplex => {
            let (re, im) = match value {
                RecordValue::DComplex(re, im) => (*re, *im),
                _ => (0u64, 0u64),
            };
            w.put_f64(re);
            w.put_f64(im);
            proof {
                aipsio::lemma_sheet_put(
                    start,
                    aipsio::u64_bytes(start.big, re),
                    aipsio::u64_bytes(start.big, im),
                );
            }
        },
        DataType::String | DataType::Table => match value {
            RecordValue::String(s) => w.put_string(s.as_str()),
            RecordValue::Table(s) => w.put_string(s.as_str()),
            _ => w.put_string(""),
        },
        _ => {
            proof {
                aipsio::lemma_sheet_put_nothing(start);
            }
        },
    }
}

/// The first `n` dimensions as 32-bit integers.
pub open spec fn dims_bytes(big: bool, dims: Seq<i64>, n: nat) -> Seq<u8>
    decreases n,
{
    if n == 0 {
        Seq::empty()
    } else {
        dims_bytes(big, dims, (n - 1) as nat) + aipsio::i32_bytes(big, dims[n - 1] as i32)
    }
}

/// A framed version-1 IPosition.
pub open spec fn iposition_bytes(big: bool, dims: Seq<i64>) -> Seq<u8> {
    aipsio::object_bytes(
        big,
        false,
        "IPosition"@,
        1,
        aipsio::u32_bytes(big, crate::bytes::low32(dims.len() as int)) + dims_bytes(
            big,
            dims,
            dims.len(),
        ),
    )
}

/// Serialize an IPosition (framed `"IPosition"` v1).
pub fn write_iposition(w: &mut Writer, dims: &[i64])
    ensures
        final(w)@ == old(w)@.put(iposition_bytes(old(w)@.big, dims@)),
{
    let ghost start = w@;
    w.put_object_start("IPosition", 1);
    let ghost inner = w@;
    w.put_u32(crate::bytes::length32(dims.len()));
    let ghost head = aipsio::u32_bytes(start.big, crate::bytes::low32(dims@.len() as int));
    let mut i: usize = 0;
    proof {
        assert(w@.body =~= inner.put(head + dims_bytes(start.big, dims@, 0)).body);
    }
    while i < dims.len()
        invariant
            i <= dims@.len(),
            inner.big == start.big,
            w@ == inner.put(head + dims_bytes(start.big, dims@, i as nat)),
        decreases dims@.len() - i,
    {
        w.put_i32(dims[i] as i32);
        i = i + 1;
        proof {
            assert(w@.body =~= inner.put(head + dims_bytes(start.big, dims@, i as nat)).body);
        }
    }
    w.put_object_end();
    proof {
        aipsio::lemma_sheet_object(
            start,
            false,
            "IPosition"@,
            1,
            head + dims_bytes(start.big, dims@, dims@.len()),
        );
    }
}

/// A framed record description.
pub open spec fn desc_bytes(big: bool, m: DescModel) -> Seq<u8>
    decreases m, 1nat,
{
    aipsio::object_bytes(
        big,
        false,
        "RecordDesc"@,
        2,
        aipsio::i32_bytes(big, m.fields.len() as i32) + fields_bytes(big, m.fields, m.fields.len()),
    )
}

/// The first `n` field descriptions.
pub open spec fn fields_bytes(big: bool, fs: Seq<FieldModel>, n: nat) -> Seq<u8>
    decreases fs, n,
{
    if n == 0 || n > fs.len() {
        Seq::empty()
    } else {
        fields_bytes(big, fs, (n - 1) as nat) + field_bytes(big, fs[n - 1])
    }
}

/// One field description.
pub open spec fn field_bytes(big: bool, f: FieldModel) -> Seq<u8>
    decreases f, 1nat,
{
    aipsio::string_bytes(big, f.name) + aipsio::i32_bytes(big, record::type_code(f.data_type))
        + field_extra_bytes(big, f) + aipsio::string_bytes(big, f.comment)
}

/// What its type adds to a field description.
pub open spec fn field_extra_bytes(big: bool, f: FieldModel) -> Seq<u8>
    decreases f, 0nat,
{
    match f.data_type {
        DataType::Record => match f.sub_desc {
            Some(m) => desc_bytes(big, m),
            None => Seq::empty(),
        },
        DataType::Table => aipsio::string_bytes(big, table_name(f)),
        dt => if record::array_type(dt) {
            iposition_bytes(big, field_shape(f))
        } else {
            Seq::empty()
        },
    }
}

/// The table description name of a field, empty where it has none.
pub open spec fn table_name(f: FieldModel) -> Seq<char> {
    match f.table_desc_name {
        Some(s) => s,
        None => ""@,
    }
}

/// The shape of a field, empty where it has none.
pub open spec fn field_shape(f: FieldModel) -> Seq<i64> {
    match f.shape {
        Some(s) => s,
        None => Seq::empty(),
    }
}

/// Write a record description.
pub fn write_record_desc(w: &mut Writer, desc: &RecordDesc)
    requires
        recordio::desc_complete(desc@),
    ensures
        final(w)@ == old(w)@.put(desc_bytes(old(w)@.big, desc@)),
    decreases desc,
{
    let ghost start = w@;
    let ghost fs = desc@.fields;
    w.put_object_start("RecordDesc", 2);
    let ghost inner = w@;
    w.put_i32(desc.fields.len() as i32);
    let ghost head = aipsio::i32_bytes(start.big, fs.len() as i32);
    let mut i: usize = 0;
    proof {
        assert(w@.body =~= inner.put(head + fields_bytes(start.big, fs, 0)).body);
    }
    while i < desc.fields.len()
        invariant
            i <= desc.fields@.len(),
            fs == desc@.fields,
            recordio::desc_complete(desc@),
            inner.big == start.big,
            w@ == inner.put(head + fields_bytes(start.big, fs, i as nat)),
        decreases desc.fields@.len() - i,
    {
        let ghost at = w@;
        proof {
            assert(fs[i as int] == desc.fields@[i as int]@);
            assert(recordio::field_complete(fs[i as int]));
        }
        write_field(w, &desc.fields[i]);
        i = i + 1;
        proof {
            assert(w@.body =~= inner.put(head + fields_bytes(start.big, fs, i as nat)).body);
        }
    }
    w.put_object_end();
    proof {
        aipsio::lemma_sheet_object(
            start,
            false,
            "RecordDesc"@,
            2,
            head + fields_bytes(start.big, fs, fs.len()),
        );
    }
}

fn write_field(w: &mut Writer, field: &RecordDescField)
    requires
        recordio::field_complete(field@),
    ensures
        final(w)@ == old(w)@.put(field_bytes(old(w)@.big, field@)),
    decreases field,
{
    let ghost start = w@;
    w.put_string(field.name.as_str());
    w.put_i32(data_type_code(field.data_type));
    let ghost at = w@;
    if field.data_type == DataType::Record {
        match &field.sub_desc {
            Some(sub) => write_record_desc(w, sub),
            None => {
                assert(false);
            },
        }
    } else if field.data_type == DataType::Table {
        match &field.table_desc_name {
            Some(s) => w.put_string(s.as_str()),
            None => w.put_string(""),
        }
    } else if field.data_type.is_array() {
        match &field.shape {
            Some(s) => write_iposition(w, s.as_slice()),
            None => {
                let none: Vec<i64> = Vec::new();
                write_iposition(w, none.as_slice());
            },
        }
    } else {
        proof {
            aipsio::lemma_sheet_put_nothing(at);
        }
    }
    assert(w@ == at.put(field_extra_bytes(start.big, field@)));
    w.put_string(field.comment.as_str());
    proof {
        aipsio::lemma_sheet_put4(
            start,
            aipsio::string_bytes(start.big, field@.name),
            aipsio::i32_bytes(start.big, record::type_code(field.data_type)),
            field_extra_bytes(start.big, field@),
            aipsio::string_bytes(start.big, field@.comment),
        );
    }
}

/// Some record field lacks a sub-description.
pub open spec fn lacks_sub_desc(fs: Seq<FieldModel>) -> bool {
    exists|i: int|
        0 <= i < fs.len() && (#[trigger] fs[i]).data_type == DataType::Record && fs[i].sub_desc is None
}

/// The fault of a record that cannot be written.
pub open spec fn unwritable<T>(why: Seq<char>) -> Result<T, RecordFault> {
    Err(RecordFault::LegacyKeywordSet(why))
}

/// A framed table record, or the reason why it cannot be written.
pub open spec fn record_bytes(big: bool, m: RecordModel) -> Result<Seq<u8>, RecordFault>
    decreases m, 3nat, 0nat,
{
    if lacks_sub_desc(m.desc.fields) {
        unwritable("missing sub-desc"@)
    } else {
        match values_bytes(big, m, m.desc.fields.len()) {
            Err(e) => Err(e),
            Ok(b) => Ok(
                aipsio::object_bytes(
                    big,
                    false,
                    "TableRecord"@,
                    1,
                    desc_bytes(big, m.desc) + aipsio::i32_bytes(big, m.record_type) + b,
                ),
            ),
        }
    }
}

/// The values of the first `n` fields of a framed record.
pub open spec fn values_bytes(big: bool, m: RecordModel, n: nat) -> Result<Seq<u8>, RecordFault>
    decreases m, 2nat, n,
{
    if n == 0 {
        Ok(Seq::empty())
    } else {
        match values_bytes(big, m, (n - 1) as nat) {
            Err(e) => Err(e),
            Ok(b) => match value_bytes(big, m, n - 1) {
                Err(e) => Err(e),
                Ok(x) => Ok(b + x),
            },
        }
    }
}

/// The value of field `i` of a framed record, found by the field's name.
pub open spec fn value_bytes(big: bool, m: RecordModel, i: int) -> Result<Seq<u8>, RecordFault>
    decreases m, 1nat, 0nat,
{
    let f = m.desc.fields[i];
    if record::array_type(f.data_type) {
        unwritable("array field "@ + f.name)
    } else {
        let k = record::field_index(m.desc.fields, f.name);
        let found = k is Some && 0 <= k->0 < m.values.len();
        if f.data_type == DataType::Record {
            if found {
                match m.values[k->0] {
                    ValueModel::Record(sub) => nested_bytes(big, sub),
                    _ => unwritable("missing record value"@),
                }
            } else {
                unwritable("missing record value"@)
            }
        } else if found {
            Ok(scalar_bytes(big, f.data_type, m.values[k->0]))
        } else {
            unwritable("missing field value"@)
        }
    }
}

/// A nested record: framed where its description is empty, else bare values.
pub open spec fn nested_bytes(big: bool, m: RecordModel) -> Result<Seq<u8>, RecordFault>
    decreases m, 4nat, 0nat,
{
    if m.desc.fields.len() == 0 {
        record_bytes(big, m)
    } else {
        bare_values_bytes(big, m, m.desc.fields.len())
    }
}

/// The values of the first `n` fields of a bare nested record.
pub open spec fn bare_values_bytes(big: bool, m: RecordModel, n: nat) -> Result<
    Seq<u8>,
    RecordFault,
>
    decreases m, 2nat, n,
{
    if n == 0 {
        Ok(Seq::empty())
    } else {
        match bare_values_bytes(big, m, (n - 1) as nat) {
            Err(e) => Err(e),
            Ok(b) => match bare_value_bytes(big, m, n - 1) {
                Err(e) => Err(e),
                Ok(x) => Ok(b + x),
            },
        }
    }
}

/// The value of field `i` of a bare nested record, found by the field's name.
pub open spec fn bare_value_bytes(big: bool, m: RecordModel, i: int) -> Result<
    Seq<u8>,
    RecordFault,
>
    decreases m, 1nat, 0nat,
{
    let f = m.desc.fields[i];
    let k = record::field_index(m.desc.fields, f.name);
    if k is Some && 0 <= k->0 < m.values.len() {
        match m.values[k->0] {
            ValueModel::Record(sub) => nested_bytes(big, sub),
            v => Ok(scalar_bytes(big, f.data_type, v)),
        }
    } else {
        unwritable("missing nested value"@)
    }
}

/// No value of the record, nested ones included, needs a change of its
/// floating-point width to be written.
pub open spec fn floats_ready(m: RecordModel) -> bool
    decreases m, 1nat,
{
    forall|i: int| 0 <= i < m.desc.fields.len() ==> field_floats_ready(m, #[trigger] m.desc.fields[i])
}

pub open spec fn field_floats_ready(m: RecordModel, f: FieldModel) -> bool
    decreases m, 0nat,
{
    let k = record::field_index(m.desc.fields, f.name);
    if k is Some && 0 <= k->0 < m.values.len() {
        match m.values[k->0] {
            ValueModel::Record(sub) => floats_ready(sub),
            v => !needs_float_cast(f.data_type, v),
        }
    } else {
        true
    }
}

/// The sub-descriptions that are present are complete.
pub open spec fn subs_complete(fs: Seq<FieldModel>) -> bool {
    forall|i: int|
        0 <= i < fs.len() && (#[trigger] fs[i]).data_type == DataType::Record && fs[i].sub_desc is Some
            ==> recordio::desc_complete(fs[i].sub_desc->0)
}

/// The record to be written says what it wrote, or why it could not be.
pub open spec fn written(
    res: Result<(), RecordError>,
    before: aipsio::Sheet,
    after: aipsio::Sheet,
    bytes: Result<Seq<u8>, RecordFault>,
) -> bool {
    match bytes {
        Ok(b) => res is Ok && after == before.put(b),
        Err(f) => res is Err && res->Err_0@ == f,
    }
}

fn why(s: &str) -> (e: RecordError)
    ensures
        e@ == RecordFault::LegacyKeywordSet(s@),
{
    RecordError::LegacyKeywordSet(s.to_owned())
}

fn put_record(w: &mut Writer, record: &TableRecord) -> (res: Result<(), RecordError>)
    requires
        subs_complete(record@.desc.fields),
        floats_ready(record@),
    ensures
        written(res, old(w)@, final(w)@, record_bytes(old(w)@.big, record@)),
    decreases record, 3nat,
{
    let ghost start = w@;
    let ghost m = record@;
    let ghost fs = m.desc.fields;
    let mut i: usize = 0;
    while i < record.desc.fields.len()
        invariant
            i <= record.desc.fields@.len(),
            start == old(w)@,
            m == record@,
            fs == m.desc.fields,
            forall|j: int|
                0 <= j < i ==> !((#[trigger] fs[j]).data_type == DataType::Record
                    && fs[j].sub_desc is None),
        decreases record.desc.fields@.len() - i,
    {
        let field = &record.desc.fields[i];
        assert(fs[i as int] == field@);
        if field.data_type == DataType::Record && field.sub_desc.is_none() {
            assert(lacks_sub_desc(fs));
            return Err(why("missing sub-desc"));
        }
        i = i + 1;
    }
    assert(!lacks_sub_desc(fs));
    proof {
        assert forall|j: int| 0 <= j < fs.len() implies recordio::field_complete(
            #[trigger] fs[j],
        ) by {}
        assert(recordio::fields_complete(fs));
    }
    w.put_object_start("TableRecord", 1);
    let ghost inner = w@;
    write_record_desc(w, &record.desc);
    w.put_i32(record.record_type);
    let ghost at = w@;
    put_values(w, record)?;
    w.put_object_end();
    proof {
        let b = values_bytes(start.big, m, fs.len())->Ok_0;
        aipsio::lemma_sheet_put3(
            inner,
            desc_bytes(start.big, m.desc),
            aipsio::i32_bytes(start.big, m.record_type),
            b,
        );
        aipsio::lemma_sheet_object(
            start,
            false,
            "TableRecord"@,
            1,
            desc_bytes(start.big, m.desc) + aipsio::i32_bytes(start.big, m.record_type) + b,
        );
    }
    Ok(())
}

fn put_values(w: &mut Writer, record: &TableRecord) -> (res: Result<(), RecordError>)
    requires
        floats_ready(record@),
    ensures
        written(
            res,
            old(w)@,
            final(w)@,
            values_bytes(old(w)@.big, record@, record@.desc.fields.len()),
        ),
    decreases record, 2nat,
{
    let ghost start = w@;
    let ghost m = record@;
    let ghost big = start.big;
    let ghost n = m.desc.fields.len();
    let mut i: usize = 0;
    proof {
        aipsio::lemma_sheet_put_nothing(start);
    }
    while i < record.desc.fields.len()
        invariant
            i <= n,
            n == record.desc.fields@.len(),
            n == m.desc.fields.len(),
            start == old(w)@,
            big == start.big,
            m == record@,
            floats_ready(m),
            values_bytes(big, m, i as nat) is Ok,
            w@ == start.put(values_bytes(big, m, i as nat)->Ok_0),
        decreases n - i,
    {
        let field = &record.desc.fields[i];
        let ghost fm = m.desc.fields[i as int];
        let ghost so_far = values_bytes(big, m, i as nat)->Ok_0;
        assert(fm == field@);
        assert(field_floats_ready(m, fm));
        proof {
            if value_bytes(big, m, i as int) is Err {
                lemma_values_fault(big, m, i as nat, n);
            }
        }
        if field.data_type.is_array() {
            let mut text = "array field ".to_owned();
            text.append(field.name.as_str());
            return Err(RecordError::LegacyKeywordSet(text));
        }
        if field.data_type == DataType::Record {
            match record.get_with_proof(field.name.as_str()) {
                Some(RecordValue::Record(sub)) => {
                    put_nested(w, sub)?;
                },
                _ => {
                    return Err(why("missing record value"));
                },
            }
        } else {
            match record.get_with_proof(field.name.as_str()) {
                Some(value) => {
                    assert(!needs_float_cast(fm.data_type, value@));
                    write_scalar_value(w, field.data_type, value);
                },
                None => {
                    return Err(why("missing field value"));
                },
            }
        }
        proof {
            aipsio::lemma_sheet_put(start, so_far, value_bytes(big, m, i as int)->Ok_0);
        }
        i = i + 1;
    }
    Ok(())
}

fn put_nested(w: &mut Writer, record: &TableRecord) -> (res: Result<(), RecordError>)
    requires
        floats_ready(record@),
    ensures
        written(res, old(w)@, final(w)@, nested_bytes(old(w)@.big, record@)),
    decreases record, 4nat,
{
    if record.desc.fields.len() == 0 {
        put_record(w, record)
    } else {
        put_bare_values(w, record)
    }
}

fn put_bare_values(w: &mut Writer, record: &TableRecord) -> (res: Result<(), RecordError>)
    requires
        floats_ready(record@),
    ensures
        written(
            res,
            old(w)@,
            final(w)@,
            bare_values_bytes(old(w)@.big, record@, record@.desc.fields.len()),
        ),
    decreases record, 2nat,
{
    let ghost start = w@;
    let ghost m = record@;
    let ghost big = start.big;
    let ghost n = m.desc.fields.len();
    let mut i: usize = 0;
    proof {
        aipsio::lemma_sheet_put_nothing(start);
    }
    while i < record.desc.fields.len()
        invariant
            i <= n,
            n == record.desc.fields@.len(),
            n == m.desc.fields.len(),
            start == old(w)@,
            big == start.big,
            m == record@,
            floats_ready(m),
            bare_values_bytes(big, m, i as nat) is Ok,
            w@ == start.put(bare_values_bytes(big, m, i as nat)->Ok_0),
        decreases n - i,
    {
        let field = &record.desc.fields[i];
        let ghost fm = m.desc.fields[i as int];
        let ghost so_far = bare_values_bytes(big, m, i as nat)->Ok_0;
        assert(fm == field@);
        assert(field_floats_ready(m, fm));
        proof {
            if bare_value_bytes(big, m, i as int) is Err {
                lemma_bare_values_fault(big, m, i as nat, n);
            }
        }
        match record.get_with_proof(field.name.as_str()) {
            None => {
                return Err(why("missing nested value"));
            },
            Some(RecordValue::Record(sub)) => {
                put_nested(w, sub)?;
            },
            Some(value) => {
                write_scalar_value(w, field.data_type, value);
            },
        }
        proof {
            aipsio::lemma_sheet_put(start, so_far, bare_value_bytes(big, m, i as int)->Ok_0);
        }
        i = i + 1;
    }
    Ok(())
}

proof fn lemma_values_fault(big: bool, m: RecordModel, i: nat, n: nat)
    requires
        i < n,
        values_bytes(big, m, i) is Ok,
        value_bytes(big, m, i as int) is Err,
    ensures
        values_bytes(big, m, n) == value_bytes(big, m, i as int),
    decreases n,
{
    if n > i + 1 {
        lemma_values_fault(big, m, i, (n - 1) as nat);
    }
}

proof fn lemma_bare_values_fault(big: bool, m: RecordModel, i: nat, n: nat)
    requires
        i < n,
        bare_values_bytes(big, m, i) is Ok,
        bare_value_bytes(big, m, i as int) is Err,
    ensures
        bare_values_bytes(big, m, n) == bare_value_bytes(big, m, i as int),
    decreases n,
{
    if n > i + 1 {
        lemma_bare_values_fault(big, m, i, (n - 1) as nat);
    }
}

/// Serialize a table record. Array fields are not writable. Where the record
/// cannot be written, the writer stays as it was.
pub fn write_table_record(w: &mut Writer, record: &TableRecord) -> (res: Result<(), RecordError>)
    requires
        subs_complete(record@.desc.fields),
        floats_ready(record@),
    ensures
        written(res, old(w)@, final(w)@, record_bytes(old(w)@.big, record@)),
        res is Err ==> final(w)@ == old(w)@,
{
    let mut inner = if w.is_big_endian() {
        Writer::new()
    } else {
        Writer::new_le()
    };
    put_record(&mut inner, record)?;
    let b = inner.into_bytes();
    assert(b@ =~= record_bytes(w@.big, record@)->Ok_0);
    w.put_raw(b.as_slice());
    Ok(())
}

} // verus!
