//! Records on disk.
//!
//! A `TableRecord` is a framed `"TableRecord"` v1 object: a framed
//! `"RecordDesc"` v2, an `Int` record type (0 = Fixed, 1 = Variable), then
//! the field values in description order. Scalar values are written inline;
//! arrays are framed `"Array<...>"` v3 objects; a sub-record with an empty
//! description is a fully framed nested TableRecord, while one with a
//! non-empty description is written as bare field data; a table field is a
//! plain string (the table name).
use crate::aipsio::{AipsIoError, AipsIoFault, Cursor, Reader, Step};
use crate::aipsio;
use crate::bytes;
use crate::bytes::unpack_bits;
use crate::record;
use crate::record::{
    data_type_code, ArrayData, ArrayModel, ArrayValue, DataType, DescModel, ElementsModel,
    FieldModel, RecordDesc, RecordDescField, RecordError, RecordFault, RecordModel, RecordValue,
    TableRecord, ValueModel,
};
use crate::text;
use crate::text::starts_with;
use vstd::prelude::*;

verus! {

broadcast use aipsio::group_cursor;

/// A stream fault as a record fault.
pub open spec fn lift<T>(s: Step<T, AipsIoFault>) -> Step<T, RecordFault> {
    match s {
        Ok(v) => Ok(v),
        Err((f, c)) => Err((RecordFault::AipsIo(f), c)),
    }
}

/// A stream error as a record error.
pub(crate) fn lifted<T>(r: Result<T, AipsIoError>) -> (q: Result<T, RecordError>)
    ensures
        match r {
            Ok(v) => q == Ok::<T, RecordError>(v),
            Err(e) => q == Err::<T, RecordError>(RecordError::AipsIo(e)),
        },
{
    match r {
        Ok(v) => Ok(v),
        Err(e) => Err(RecordError::AipsIo(e)),
    }
}

/// A value that can be the element of a list in a stream.
pub trait Element: View + Sized {
    /// The element at a cursor.
    spec fn at(c: Cursor) -> Step<Self::V, AipsIoFault>;

    /// Read one element.
    fn read(r: &mut Reader<'_>) -> (res: Result<Self, AipsIoError>)
        ensures
            aipsio::reads(res, final(r)@, Self::at(old(r)@)),
    ;
}

impl Element for u8 {
    open spec fn at(c: Cursor) -> Step<u8, AipsIoFault> {
        c.u8()
    }

    fn read(r: &mut Reader<'_>) -> (res: Result<u8, AipsIoError>) {
        r.read_u8()
    }
}

impl Element for i16 {
    open spec fn at(c: Cursor) -> Step<i16, AipsIoFault> {
        c.i16()
    }

    fn read(r: &mut Reader<'_>) -> (res: Result<i16, AipsIoError>) {
        r.read_i16()
    }
}

impl Element for u16 {
    open spec fn at(c: Cursor) -> Step<u16, AipsIoFault> {
        c.u16()
    }

    fn read(r: &mut Reader<'_>) -> (res: Result<u16, AipsIoError>) {
        r.read_u16()
    }
}

impl Element for i32 {
    open spec fn at(c: Cursor) -> Step<i32, AipsIoFault> {
        c.i32()
    }

    fn read(r: &mut Reader<'_>) -> (res: Result<i32, AipsIoError>) {
        r.read_i32()
    }
}

impl Element for u32 {
    open spec fn at(c: Cursor) -> Step<u32, AipsIoFault> {
        c.u32()
    }

    fn read(r: &mut Reader<'_>) -> (res: Result<u32, AipsIoError>) {
        r.read_u32()
    }
}

impl Element for i64 {
    open spec fn at(c: Cursor) -> Step<i64, AipsIoFault> {
        c.i64()
    }

    fn read(r: &mut Reader<'_>) -> (res: Result<i64, AipsIoError>) {
        r.read_i64()
    }
}

impl Element for u64 {
    open spec fn at(c: Cursor) -> Step<u64, AipsIoFault> {
        c.u64()
    }

    fn read(r: &mut Reader<'_>) -> (res: Result<u64, AipsIoError>) {
        r.read_u64()
    }
}

impl Element for (u32, u32) {
    open spec fn at(c: Cursor) -> Step<(u32, u32), AipsIoFault> {
        match c.u32() {
            Err(e) => Err(e),
            Ok((a, c)) => match c.u32() {
                Err(e) => Err(e),
                Ok((b, c)) => Ok(((a, b), c)),
            },
        }
    }

    fn read(r: &mut Reader<'_>) -> (res: Result<(u32, u32), AipsIoError>) {
        let a = r.read_f32()?;
        let b = r.read_f32()?;
        Ok((a, b))
    }
}

impl Element for (i32, i32) {
    open spec fn at(c: Cursor) -> Step<(i32, i32), AipsIoFault> {
        match c.i32() {
            Err(e) => Err(e),
            Ok((a, c)) => match c.i32() {
                Err(e) => Err(e),
                Ok((b, c)) => Ok(((a, b), c)),
            },
        }
    }

    fn read(r: &mut Reader<'_>) -> (res: Result<(i32, i32), AipsIoError>) {
        let a = r.read_i32()?;
        let b = r.read_i32()?;
        Ok((a, b))
    }
}

impl Element for (u64, u64) {
    open spec fn at(c: Cursor) -> Step<(u64, u64), AipsIoFault> {
        match c.u64() {
            Err(e) => Err(e),
            Ok((a, c)) => match c.u64() {
                Err(e) => Err(e),
                Ok((b, c)) => Ok(((a, b), c)),
            },
        }
    }

    fn read(r: &mut Reader<'_>) -> (res: Result<(u64, u64), AipsIoError>) {
        let a = r.read_f64()?;
        let b = r.read_f64()?;
        Ok((a, b))
    }
}

impl Element for String {
    open spec fn at(c: Cursor) -> Step<Seq<char>, AipsIoFault> {
        c.string()
    }

    fn read(r: &mut Reader<'_>) -> (res: Result<String, AipsIoError>) {
        r.read_string()
    }
}

/// `n` elements, appended to `acc`.
pub open spec fn elements_at<T: Element>(c: Cursor, n: nat, acc: Seq<T::V>) -> Step<
    Seq<T::V>,
    AipsIoFault,
>
    decreases n,
{
    if n == 0 {
        Ok((acc, c))
    } else {
        match T::at(c) {
            Err(e) => Err(e),
            Ok((v, d)) => elements_at::<T>(d, (n - 1) as nat, acc.push(v)),
        }
    }
}

/// The views of a list's elements.
pub open spec fn views<T: View>(s: Seq<T>) -> Seq<T::V> {
    s.map_values(|x: T| x@)
}

/// Read `n` elements.
pub(crate) fn read_elements<T: Element>(r: &mut Reader<'_>, n: usize) -> (res: Result<
    Vec<T>,
    AipsIoError,
>)
    ensures
        match elements_at::<T>(old(r)@, n as nat, Seq::empty()) {
            Ok((s, c)) => res is Ok && views(res->Ok_0@) == s && s.len() == n && final(r)@ == c,
            Err((f, c)) => res is Err && res->Err_0@ == f && final(r)@ == c,
        },
{
    let mut out: Vec<T> = Vec::new();
    let mut i: usize = 0;
    let ghost start = elements_at::<T>(r@, n as nat, Seq::empty());
    assert(views(out@) =~= Seq::<T::V>::empty());
    while i < n
        invariant
            i <= n,
            out@.len() == i,
            start == elements_at::<T>(old(r)@, n as nat, Seq::empty()),
            start == elements_at::<T>(r@, (n - i) as nat, views(out@)),
        decreases n - i,
    {
        let ghost before = out@;
        let v = T::read(r)?;
        out.push(v);
        assert(views(out@) =~= views(before).push(v@));
        i = i + 1;
    }
    Ok(out)
}

/// The elements of an array of `n` elements of type `elem`.
pub open spec fn array_elements_at(c: Cursor, elem: DataType, n: nat) -> Step<
    ElementsModel,
    RecordFault,
> {
    match elem {
        DataType::Bool => match lift(elements_at::<u8>(c, (n + 7) / 8, Seq::empty())) {
            Err(e) => Err(e),
            Ok((s, d)) => Ok((ElementsModel::Bool(bytes::unpacked(s, n)), d)),
        },
        DataType::Char | DataType::UChar => match lift(elements_at::<u8>(c, n, Seq::empty())) {
            Err(e) => Err(e),
            Ok((s, d)) => Ok((ElementsModel::UChar(s), d)),
        },
        DataType::Short => match lift(elements_at::<i16>(c, n, Seq::empty())) {
            Err(e) => Err(e),
            Ok((s, d)) => Ok((ElementsModel::Short(s), d)),
        },
        DataType::UShort => match lift(elements_at::<u16>(c, n, Seq::empty())) {
            Err(e) => Err(e),
            Ok((s, d)) => Ok((ElementsModel::UShort(s), d)),
        },
        DataType::Int => match lift(elements_at::<i32>(c, n, Seq::empty())) {
            Err(e) => Err(e),
            Ok((s, d)) => Ok((ElementsModel::Int(s), d)),
        },
        DataType::UInt => match lift(elements_at::<u32>(c, n, Seq::empty())) {
            Err(e) => Err(e),
            Ok((s, d)) => Ok((ElementsModel::UInt(s), d)),
        },
        DataType::Int64 => match lift(elements_at::<i64>(c, n, Seq::empty())) {
            Err(e) => Err(e),
            Ok((s, d)) => Ok((ElementsModel::Int64(s), d)),
        },
        DataType::Float => match lift(elements_at::<u32>(c, n, Seq::empty())) {
            Err(e) => Err(e),
            Ok((s, d)) => Ok((ElementsModel::Float(s), d)),
        },
        DataType::Double => match lift(elements_at::<u64>(c, n, Seq::empty())) {
            Err(e) => Err(e),
            Ok((s, d)) => Ok((ElementsModel::Double(s), d)),
        },
        DataType::Complex => match lift(elements_at::<(u32, u32)>(c, n, Seq::empty())) {
            Err(e) => Err(e),
            Ok((s, d)) => Ok((ElementsModel::Complex(s), d)),
        },
        DataType::DComplex => match lift(elements_at::<(u64, u64)>(c, n, Seq::empty())) {
            Err(e) => Err(e),
            Ok((s, d)) => Ok((ElementsModel::DComplex(s), d)),
        },
        DataType::String => match lift(elements_at::<String>(c, n, Seq::empty())) {
            Err(e) => Err(e),
            Ok((s, d)) => Ok((ElementsModel::String(s), d)),
        },
        other => Err((RecordFault::UnknownDataType(record::type_code(other)), c)),
    }
}

/// Read the elements of an array of `n` elements of type `elem`.
pub(crate) fn read_array_elements(r: &mut Reader<'_>, elem: DataType, n: usize) -> (res: Result<
    ArrayData,
    RecordError,
>)
    ensures
        aipsio::reads(res, final(r)@, array_elements_at(old(r)@, elem, n as nat)),
{
    Ok(
        match elem {
            DataType::Bool => {
                let m: usize = n / 8 + (if n % 8 == 0 { 0 } else { 1 });
                assert(m == (n + 7) / 8);
                let packed: Vec<u8> = lifted(read_elements::<u8>(r, m))?;
                assert(views(packed@) =~= packed@);
                ArrayData::Bool(unpack_bits(packed.as_slice(), n))
            },
            DataType::Char | DataType::UChar => {
                let v = lifted(read_elements::<u8>(r, n))?;
                assert(views(v@) =~= v@);
                ArrayData::UChar(v)
            },
            DataType::Short => {
                let v = lifted(read_elements::<i16>(r, n))?;
                assert(views(v@) =~= v@);
                ArrayData::Short(v)
            },
            DataType::UShort => {
                let v = lifted(read_elements::<u16>(r, n))?;
                assert(views(v@) =~= v@);
                ArrayData::UShort(v)
            },
            DataType::Int => {
                let v = lifted(read_elements::<i32>(r, n))?;
                assert(views(v@) =~= v@);
                ArrayData::Int(v)
            },
            DataType::UInt => {
                let v = lifted(read_elements::<u32>(r, n))?;
                assert(views(v@) =~= v@);
                ArrayData::UInt(v)
            },
            DataType::Int64 => {
                let v = lifted(read_elements::<i64>(r, n))?;
                assert(views(v@) =~= v@);
                ArrayData::Int64(v)
            },
            DataType::Float => {
                let v = lifted(read_elements::<u32>(r, n))?;
                assert(views(v@) =~= v@);
                ArrayData::Float(v)
            },
            DataType::Double => {
                let v = lifted(read_elements::<u64>(r, n))?;
                assert(views(v@) =~= v@);
                ArrayData::Double(v)
            },
            DataType::Complex => {
                let v = lifted(read_elements::<(u32, u32)>(r, n))?;
                assert(views(v@) =~= v@);
                ArrayData::Complex(v)
            },
            DataType::DComplex => {
                let v = lifted(read_elements::<(u64, u64)>(r, n))?;
                assert(views(v@) =~= v@);
                ArrayData::DComplex(v)
            },
            DataType::String => {
                let v = lifted(read_elements::<String>(r, n))?;
                assert(views(v@) =~= record::texts(v@));
                ArrayData::String(v)
            },
            other => {
                return Err(RecordError::UnknownDataType(data_type_code(other)));
            },
        },
    )
}

/// A framed array: its shape (before version 3 with an origin for each
/// dimension, which is passed over), its element count and its elements.
pub open spec fn array_at(c: Cursor, elem: DataType) -> Step<ArrayModel, RecordFault> {
    match lift(c.object_start(false)) {
        Err(e) => Err(e),
        Ok((head, c)) => if !text::has_prefix(head.object_type, "Array"@) {
            Err(
                (
                    RecordFault::AipsIo(
                        AipsIoFault::UnexpectedType {
                            offset: head.payload_offset,
                            expected: "Array<...>"@,
                            found: head.object_type,
                        },
                    ),
                    c,
                ),
            )
        } else {
            match lift(c.u32()) {
                Err(e) => Err(e),
                Ok((ndim, c)) => match lift(elements_at::<u32>(c, ndim as nat, Seq::empty())) {
                    Err(e) => Err(e),
                    Ok((shape, c)) => match lift(
                        elements_at::<u32>(
                            c,
                            if head.version < 3 {
                                ndim as nat
                            } else {
                                0
                            },
                            Seq::empty(),
                        ),
                    ) {
                        Err(e) => Err(e),
                        Ok((_, c)) => match lift(c.u32()) {
                            Err(e) => Err(e),
                            Ok((n, c)) => match array_elements_at(c, elem, n as nat) {
                                Err(e) => Err(e),
                                Ok((data, c)) => Ok((ArrayModel { shape, data }, c)),
                            },
                        },
                    },
                },
            }
        },
    }
}

/// Read a framed `"Array<...>"` object.
pub fn read_array(r: &mut Reader<'_>, elem: DataType) -> (res: Result<ArrayValue, RecordError>)
    ensures
        aipsio::reads(res, final(r)@, array_at(old(r)@, elem)),
{
    let obj = lifted(r.read_object_start(false))?;
    if !starts_with(obj.object_type.as_str(), "Array") {
        return Err(
            RecordError::AipsIo(
                AipsIoError::UnexpectedType {
                    offset: obj.payload_offset,
                    expected: "Array<...>".to_owned(),
                    found: obj.object_type,
                },
            ),
        );
    }
    let ndim: u32 = lifted(r.read_u32())?;
    let shape: Vec<u32> = lifted(read_elements::<u32>(r, ndim as usize))?;
    assert(views(shape@) =~= shape@);
    let origins: usize = if obj.version < 3 { ndim as usize } else { 0 };
    let _skipped: Vec<u32> = lifted(read_elements::<u32>(r, origins))?;
    let n: u32 = lifted(r.read_u32())?;
    let data = read_array_elements(r, elem, n as usize)?;
    Ok(ArrayValue { shape, data })
}

/// A scalar value of the given type.
pub open spec fn scalar_at(c: Cursor, dt: DataType) -> Step<ValueModel, RecordFault> {
    match dt {
        DataType::Bool => match lift(c.bool()) {
            Err(e) => Err(e),
            Ok((v, c)) => Ok((ValueModel::Bool(v), c)),
        },
        DataType::Char | DataType::UChar => match lift(c.u8()) {
            Err(e) => Err(e),
            Ok((v, c)) => Ok((ValueModel::UChar(v), c)),
        },
        DataType::Short => match lift(c.i16()) {
            Err(e) => Err(e),
            Ok((v, c)) => Ok((ValueModel::Short(v), c)),
        },
        DataType::UShort => match lift(c.u16()) {
            Err(e) => Err(e),
            Ok((v, c)) => Ok((ValueModel::UShort(v), c)),
        },
        DataType::Int => match lift(c.i32()) {
            Err(e) => Err(e),
            Ok((v, c)) => Ok((ValueModel::Int(v), c)),
        },
        DataType::UInt => match lift(c.u32()) {
            Err(e) => Err(e),
            Ok((v, c)) => Ok((ValueModel::UInt(v), c)),
        },
        DataType::Int64 => match lift(c.i64()) {
            Err(e) => Err(e),
            Ok((v, c)) => Ok((ValueModel::Int64(v), c)),
        },
        DataType::Float => match lift(c.u32()) {
            Err(e) => Err(e),
            Ok((v, c)) => Ok((ValueModel::Float(v), c)),
        },
        DataType::Double => match lift(c.u64()) {
            Err(e) => Err(e),
            Ok((v, c)) => Ok((ValueModel::Double(v), c)),
        },
        DataType::Complex => match lift(<(u32, u32) as Element>::at(c)) {
            Err(e) => Err(e),
            Ok((v, c)) => Ok((ValueModel::Complex(v.0, v.1), c)),
        },
        DataType::DComplex => match lift(<(u64, u64) as Element>::at(c)) {
            Err(e) => Err(e),
            Ok((v, c)) => Ok((ValueModel::DComplex(v.0, v.1), c)),
        },
        DataType::String => match lift(c.string()) {
            Err(e) => Err(e),
            Ok((v, c)) => Ok((ValueModel::String(v), c)),
        },
        other => Err((RecordFault::UnknownDataType(record::type_code(other)), c)),
    }
}

/// Read a scalar value of the given (non-array) type. Also used for column
/// default values.
pub fn read_scalar_value(r: &mut Reader<'_>, dt: DataType) -> (res: Result<
    RecordValue,
    RecordError,
>)
    ensures
        aipsio::reads(res, final(r)@, scalar_at(old(r)@, dt)),
{
    Ok(
        match dt {
            DataType::Bool => RecordValue::Bool(lifted(r.read_bool())?),
            DataType::Char | DataType::UChar => RecordValue::UChar(lifted(r.read_u8())?),
            DataType::Short => RecordValue::Short(lifted(r.read_i16())?),
            DataType::UShort => RecordValue::UShort(lifted(r.read_u16())?),
            DataType::Int => RecordValue::Int(lifted(r.read_i32())?),
            DataType::UInt => RecordValue::UInt(lifted(r.read_u32())?),
            DataType::Int64 => RecordValue::Int64(lifted(r.read_i64())?),
            DataType::Float => RecordValue::Float(lifted(r.read_f32())?),
            DataType::Double => RecordValue::Double(lifted(r.read_f64())?),
            DataType::Complex => {
                let re = lifted(r.read_f32())?;
                let im = lifted(r.read_f32())?;
                RecordValue::Complex(re, im)
            },
            DataType::DComplex => {
                let re = lifted(r.read_f64())?;
                let im = lifted(r.read_f64())?;
                RecordValue::DComplex(re, im)
            },
            DataType::String => RecordValue::String(lifted(r.read_string())?),
            other => {
                return Err(RecordError::UnknownDataType(data_type_code(other)));
            },
        },
    )
}

/// The data type with the code at the cursor.
pub open spec fn data_type_at(c: Cursor) -> Step<DataType, RecordFault> {
    match lift(c.i32()) {
        Err(e) => Err(e),
        Ok((code, c)) => if record::is_type_code(code) {
            Ok((record::type_of_code(code), c))
        } else {
            Err((RecordFault::UnknownDataType(code), c))
        },
    }
}

/// Read a data type code.
pub(crate) fn read_data_type(r: &mut Reader<'_>) -> (res: Result<DataType, RecordError>)
    ensures
        match data_type_at(old(r)@) {
            Ok((dt, c)) => res == Ok::<DataType, RecordError>(dt) && final(r)@ == c,
            Err((f, c)) => res is Err && res->Err_0@ == f && final(r)@ == c,
        },
{
    let code = lifted(r.read_i32())?;
    DataType::from_i32(code)
}

/// A framed record description.
pub open spec fn desc_at(c: Cursor) -> Step<DescModel, RecordFault>
    decreases c.data.len() - c.pos, 1int, 0nat,
    when 0 <= c.pos <= c.data.len()
{
    match lift(c.object(false, "RecordDesc"@)) {
        Err(e) => Err(e),
        Ok((head, d)) => match lift(d.i32()) {
            Err(e) => Err(e),
            Ok((n, d)) => match fields_at(
                d,
                c.pos,
                head.version,
                if n > 0 {
                    n as nat
                } else {
                    0
                },
                Seq::empty(),
            ) {
                Err(e) => Err(e),
                Ok((fields, d)) => Ok((DescModel { fields }, d)),
            },
        },
    }
}

/// `n` field descriptions, appended to `acc`. `base` is where the enclosing
/// description starts.
pub open spec fn fields_at(c: Cursor, base: int, version: u32, n: nat, acc: Seq<FieldModel>) -> Step<
    Seq<FieldModel>,
    RecordFault,
>
    decreases c.data.len() - base, 0int, n,
    when 0 <= base < c.pos <= c.data.len()
{
    if n == 0 {
        Ok((acc, c))
    } else {
        match field_at(c, base, version) {
            Err(e) => Err(e),
            Ok((f, d)) => if d.data == c.data {
                fields_at(d, base, version, (n - 1) as nat, acc.push(f))
            } else {
                arbitrary()
            },
        }
    }
}

/// One field description: name, type, what the type adds, and (from version
/// 2 on) a comment.
pub open spec fn field_at(c: Cursor, base: int, version: u32) -> Step<FieldModel, RecordFault>
    decreases c.data.len() - base, 0int, 0nat,
    when 0 <= base < c.pos <= c.data.len()
{
    match lift(c.string()) {
        Err(e) => Err(e),
        Ok((name, d)) => match data_type_at(d) {
            Err(e) => Err(e),
            Ok((dt, d)) => {
                let sub: Step<Option<DescModel>, RecordFault> = if dt == DataType::Record {
                    match desc_at(d) {
                        Err(e) => Err(e),
                        Ok((m, d)) => Ok((Some(m), d)),
                    }
                } else {
                    Ok((None, d))
                };
                match sub {
                    Err(e) => Err(e),
                    Ok((sub_desc, d)) => match field_tail_at(d, version, dt) {
                        Err(e) => Err(e),
                        Ok((tail, d)) => Ok(
                            (
                                FieldModel {
                                    name,
                                    data_type: dt,
                                    sub_desc,
                                    shape: tail.0,
                                    table_desc_name: tail.1,
                                    comment: tail.2,
                                },
                                d,
                            ),
                        ),
                    },
                }
            },
        },
    }
}

/// Shape, table description name and comment of a field.
pub open spec fn field_tail_at(c: Cursor, version: u32, dt: DataType) -> Step<
    (Option<Seq<i64>>, Option<Seq<char>>, Seq<char>),
    RecordFault,
> {
    let table: Step<Option<Seq<char>>, RecordFault> = if dt == DataType::Table {
        match lift(c.string()) {
            Err(e) => Err(e),
            Ok((s, d)) => Ok((Some(s), d)),
        }
    } else {
        Ok((None, c))
    };
    match table {
        Err(e) => Err(e),
        Ok((table_desc_name, d)) => {
            let shape: Step<Option<Seq<i64>>, RecordFault> = if record::array_type(dt) {
                match lift(d.iposition()) {
                    Err(e) => Err(e),
                    Ok((s, d)) => Ok((Some(s), d)),
                }
            } else {
                Ok((None, d))
            };
            match shape {
                Err(e) => Err(e),
                Ok((shape, d)) => {
                    let comment: Step<Seq<char>, RecordFault> = if version > 1 {
                        lift(d.string())
                    } else {
                        Ok((Seq::empty(), d))
                    };
                    match comment {
                        Err(e) => Err(e),
                        Ok((comment, d)) => Ok(((shape, table_desc_name, comment), d)),
                    }
                },
            }
        },
    }
}

pub proof fn lemma_dims_onward(c: Cursor, version: u32, n: nat, acc: Seq<i64>)
    requires
        0 <= c.pos <= c.data.len(),
    ensures
        c.dims(version, n, acc) matches Ok((_, d)) ==> aipsio::onward(c, d),
    decreases n,
{
    if n > 0 {
        if let Ok((v, d)) = c.dim(version) {
            lemma_dims_onward(d, version, (n - 1) as nat, acc.push(v));
        }
    }
}

pub proof fn lemma_desc_onward(c: Cursor)
    requires
        0 <= c.pos <= c.data.len(),
    ensures
        desc_at(c) matches Ok((m, d)) ==> aipsio::onward(c, d) && c.pos < d.pos && desc_complete(m),
    decreases c.data.len() - c.pos, 1int, 0nat,
{
    if let Ok((head, d)) = lift(c.object(false, "RecordDesc"@)) {
        if let Ok((n, d)) = lift(d.i32()) {
            lemma_fields_onward(
                d,
                c.pos,
                head.version,
                if n > 0 {
                    n as nat
                } else {
                    0
                },
                Seq::empty(),
            );
        }
    }
}

pub proof fn lemma_fields_onward(
    c: Cursor,
    base: int,
    version: u32,
    n: nat,
    acc: Seq<FieldModel>,
)
    requires
        0 <= base < c.pos <= c.data.len(),
        fields_complete(acc),
    ensures
        fields_at(c, base, version, n, acc) matches Ok((fs, d)) ==> aipsio::onward(c, d) && fields_complete(
            fs,
        ),
    decreases c.data.len() - base, 0int, n,
{
    if n > 0 {
        lemma_field_onward(c, base, version);
        if let Ok((f, d)) = field_at(c, base, version) {
            lemma_fields_onward(d, base, version, (n - 1) as nat, acc.push(f));
        }
    }
}

pub proof fn lemma_field_onward(c: Cursor, base: int, version: u32)
    requires
        0 <= base < c.pos <= c.data.len(),
    ensures
        field_at(c, base, version) matches Ok((f, d)) ==> aipsio::onward(c, d) && field_complete(f),
    decreases c.data.len() - base, 0int, 0nat,
{
    if let Ok((name, d)) = lift(c.string()) {
        if let Ok((dt, d)) = data_type_at(d) {
            if dt == DataType::Record {
                lemma_desc_onward(d);
                if let Ok((m, d)) = desc_at(d) {
                    lemma_tail_onward(d, version, dt);
                }
            } else {
                lemma_tail_onward(d, version, dt);
            }
        }
    }
}

pub proof fn lemma_tail_onward(c: Cursor, version: u32, dt: DataType)
    requires
        0 <= c.pos <= c.data.len(),
    ensures
        field_tail_at(c, version, dt) matches Ok((_, d)) ==> aipsio::onward(c, d),
{
    let d = if dt == DataType::Table {
        match lift(c.string()) {
            Ok((_, d)) => d,
            Err(_) => c,
        }
    } else {
        c
    };
    if let Ok((head, e)) = d.object(false, "IPosition"@) {
        if let Ok((n, e)) = e.u32() {
            lemma_dims_onward(e, head.version, n as nat, Seq::empty());
        }
    }
}

/// Every record field of a description has a sub-description, which is
/// complete itself.
pub open spec fn desc_complete(m: DescModel) -> bool
    decreases m,
{
    fields_complete(m.fields)
}

pub open spec fn fields_complete(fs: Seq<FieldModel>) -> bool
    decreases fs,
{
    forall|i: int| 0 <= i < fs.len() ==> field_complete(#[trigger] fs[i])
}

pub open spec fn field_complete(f: FieldModel) -> bool
    decreases f,
{
    f.data_type == DataType::Record ==> match f.sub_desc {
        Some(m) => desc_complete(m),
        None => false,
    }
}

impl RecordDesc {
    /// Read a framed record description.
    pub fn read(r: &mut Reader<'_>) -> (res: Result<RecordDesc, RecordError>)
        ensures
            aipsio::reads(res, final(r)@, desc_at(old(r)@)),
            res matches Ok(d) ==> desc_complete(d@),
        decreases old(r)@.data.len() - old(r)@.pos,
    {
        let _here: usize = r.position();
        let ghost c0 = r@;
        proof {
            lemma_desc_onward(c0);
        }
        let (version, obj) = lifted(r.read_object(false, "RecordDesc"))?;
        let count: i32 = lifted(r.read_i32())?;
        let n: i32 = if count > 0 { count } else { 0 };
        let mut fields: Vec<RecordDescField> = Vec::new();
        let mut i: i32 = 0;
        let ghost base = c0.pos;
        let ghost all = fields_at(r@, base, version, n as nat, Seq::empty());
        assert(record::field_models(fields@) =~= Seq::<FieldModel>::empty());
        while i < n
            invariant
                0 <= i <= n,
                base == c0.pos,
                c0 == old(r)@,
                aipsio::onward(c0, r@),
                0 <= base < r@.pos <= r@.data.len(),
                all == fields_at(
                    r@,
                    base,
                    version,
                    (n - i) as nat,
                    record::field_models(fields@),
                ),
                match all {
                    Ok((fs, d)) => desc_at(c0) == Ok::<(DescModel, Cursor), (RecordFault, Cursor)>(
                        (DescModel { fields: fs }, d),
                    ),
                    Err(e) => desc_at(c0) == Err::<(DescModel, Cursor), (RecordFault, Cursor)>(e),
                },
            decreases n - i,
        {
            let ghost before = fields@;
            let ghost at = r@;
            proof {
                lemma_field_onward(at, base, version);
            }
            let name = lifted(r.read_string())?;
            let data_type = read_data_type(r)?;
            let sub_desc = if data_type == DataType::Record {
                Some(RecordDesc::read(r)?)
            } else {
                None
            };
            let table_desc_name = if data_type == DataType::Table {
                Some(lifted(r.read_string())?)
            } else {
                None
            };
            let shape = if data_type.is_array() {
                Some(lifted(r.read_iposition())?)
            } else {
                None
            };
            let comment = if version > 1 {
                lifted(r.read_string())?
            } else {
                String::new()
            };
            let field = RecordDescField {
                name,
                data_type,
                sub_desc,
                shape,
                table_desc_name,
                comment,
            };
            proof {
                assert(comment@ =~= field@.comment);
                record::lemma_field_models_push(before, field);
            }
            fields.push(field);
            i = i + 1;
        }
        Ok(RecordDesc { fields })
    }
}

/// A framed table record.
pub open spec fn record_at(c: Cursor) -> Step<RecordModel, RecordFault>
    decreases c.data.len() - c.pos, 1int, Seq::<FieldModel>::empty(), 0nat,
    when 0 <= c.pos <= c.data.len()
{
    match lift(c.object_start(false)) {
        Err(e) => Err(e),
        Ok((head, d)) => if head.object_type != "TableRecord"@ {
            Err((RecordFault::LegacyKeywordSet(head.object_type), d))
        } else {
            match desc_at(d) {
                Err(e) => Err(e),
                Ok((desc, d)) => match lift(d.i32()) {
                    Err(e) => Err(e),
                    Ok((record_type, d)) => if d.data == c.data {
                        match values_at(d, c.pos, desc.fields, 0, Seq::empty()) {
                            Err(e) => Err(e),
                            Ok((values, d)) => Ok((RecordModel { desc, record_type, values }, d)),
                        }
                    } else {
                        arbitrary()
                    },
                },
            }
        },
    }
}

/// The values of the fields from field `i` on, appended to `acc`. `base` is
/// where the enclosing framed record starts.
pub open spec fn values_at(
    c: Cursor,
    base: int,
    fields: Seq<FieldModel>,
    i: nat,
    acc: Seq<ValueModel>,
) -> Step<Seq<ValueModel>, RecordFault>
    decreases c.data.len() - base, 0int, fields, fields.len() - i,
    when 0 <= base < c.pos <= c.data.len()
{
    if i >= fields.len() {
        Ok((acc, c))
    } else {
        match value_at(c, base, fields[i as int]) {
            Err(e) => Err(e),
            Ok((v, d)) => if d.data == c.data {
                values_at(d, base, fields, i + 1, acc.push(v))
            } else {
                arbitrary()
            },
        }
    }
}

/// The value of one field: a table name, a nested record (framed where its
/// description is empty, bare values otherwise), an array or a scalar.
pub open spec fn value_at(c: Cursor, base: int, field: FieldModel) -> Step<ValueModel, RecordFault>
    decreases c.data.len() - base, 0int, field, 0nat,
    when 0 <= base < c.pos <= c.data.len()
{
    if field.data_type == DataType::Table {
        match lift(c.string()) {
            Err(e) => Err(e),
            Ok((s, d)) => Ok((ValueModel::Table(s), d)),
        }
    } else if field.data_type == DataType::Record {
        match field.sub_desc {
            None => arbitrary(),
            Some(sub) => if sub.fields.len() == 0 {
                match record_at(c) {
                    Err(e) => Err(e),
                    Ok((m, d)) => Ok((ValueModel::Record(m), d)),
                }
            } else {
                match values_at(c, base, sub.fields, 0, Seq::empty()) {
                    Err(e) => Err(e),
                    Ok((values, d)) => Ok(
                        (
                            ValueModel::Record(RecordModel { desc: sub, record_type: 0, values }),
                            d,
                        ),
                    ),
                }
            },
        }
    } else if record::array_type(field.data_type) {
        match array_at(c, record::element_of(field.data_type)) {
            Err(e) => Err(e),
            Ok((a, d)) => Ok((ValueModel::Array(a), d)),
        }
    } else {
        scalar_at(c, field.data_type)
    }
}

pub proof fn lemma_elements_onward<T: Element>(c: Cursor, n: nat, acc: Seq<T::V>)
    requires
        0 <= c.pos <= c.data.len(),
        forall|x: Cursor|
            0 <= x.pos <= x.data.len() ==> (#[trigger] T::at(x) matches Ok((_, d)) ==> aipsio::onward(x, d)),
    ensures
        elements_at::<T>(c, n, acc) matches Ok((_, d)) ==> aipsio::onward(c, d),
    decreases n,
{
    if n > 0 {
        if let Ok((v, d)) = T::at(c) {
            assert(aipsio::onward(c, d));
            lemma_elements_onward::<T>(d, (n - 1) as nat, acc.push(v));
        }
    }
}

pub proof fn lemma_array_onward(c: Cursor, elem: DataType)
    requires
        0 <= c.pos <= c.data.len(),
    ensures
        array_at(c, elem) matches Ok((_, d)) ==> aipsio::onward(c, d),
{
    if let Ok((head, c)) = c.object_start(false) {
        if let Ok((ndim, c)) = c.u32() {
            lemma_elements_onward::<u32>(c, ndim as nat, Seq::empty());
            if let Ok((shape, c)) = elements_at::<u32>(c, ndim as nat, Seq::empty()) {
                let k = if head.version < 3 {
                    ndim as nat
                } else {
                    0
                };
                lemma_elements_onward::<u32>(c, k, Seq::empty());
                if let Ok((o, c)) = elements_at::<u32>(c, k, Seq::empty()) {
                    if let Ok((n, c)) = c.u32() {
                        let n = n as nat;
                        lemma_elements_onward::<u8>(c, (n + 7) / 8, Seq::empty());
                        lemma_elements_onward::<u8>(c, n, Seq::empty());
                        lemma_elements_onward::<i16>(c, n, Seq::empty());
                        lemma_elements_onward::<u16>(c, n, Seq::empty());
                        lemma_elements_onward::<i32>(c, n, Seq::empty());
                        lemma_elements_onward::<u32>(c, n, Seq::empty());
                        lemma_elements_onward::<i64>(c, n, Seq::empty());
                        lemma_elements_onward::<u64>(c, n, Seq::empty());
                        lemma_elements_onward::<(u32, u32)>(c, n, Seq::empty());
                        lemma_elements_onward::<(u64, u64)>(c, n, Seq::empty());
                        lemma_elements_onward::<String>(c, n, Seq::empty());
                    }
                }
            }
        }
    }
}

pub proof fn lemma_record_onward(c: Cursor)
    requires
        0 <= c.pos <= c.data.len(),
    ensures
        record_at(c) matches Ok((m, d)) ==> aipsio::onward(c, d) && desc_complete(m.desc) && m.aligned(),
    decreases c.data.len() - c.pos, 1int, Seq::<FieldModel>::empty(), 0nat,
{
    if let Ok((head, d)) = lift(c.object_start(false)) {
        lemma_desc_onward(d);
        if let Ok((desc, d)) = desc_at(d) {
            if let Ok((t, d)) = lift(d.i32()) {
                lemma_values_onward(d, c.pos, desc.fields, 0, Seq::empty());
            }
        }
    }
}

pub proof fn lemma_values_onward(
    c: Cursor,
    base: int,
    fields: Seq<FieldModel>,
    i: nat,
    acc: Seq<ValueModel>,
)
    requires
        0 <= base < c.pos <= c.data.len(),
        fields_complete(fields),
        i <= fields.len(),
        acc.len() == i,
    ensures
        values_at(c, base, fields, i, acc) matches Ok((vs, d)) ==> aipsio::onward(c, d) && vs.len()
            == fields.len(),
    decreases c.data.len() - base, 0int, fields, fields.len() - i,
{
    if i < fields.len() {
        lemma_value_onward(c, base, fields[i as int]);
        if let Ok((v, d)) = value_at(c, base, fields[i as int]) {
            lemma_values_onward(d, base, fields, i + 1, acc.push(v));
        }
    }
}

pub proof fn lemma_value_onward(c: Cursor, base: int, field: FieldModel)
    requires
        0 <= base < c.pos <= c.data.len(),
        field_complete(field),
    ensures
        value_at(c, base, field) matches Ok((_, d)) ==> aipsio::onward(c, d),
    decreases c.data.len() - base, 0int, field, 0nat,
{
    if field.data_type == DataType::Record {
        let sub = field.sub_desc->0;
        if sub.fields.len() == 0 {
            lemma_record_onward(c);
        } else {
            lemma_values_onward(c, base, sub.fields, 0, Seq::empty());
        }
    } else if record::array_type(field.data_type) {
        lemma_array_onward(c, record::element_of(field.data_type));
    }
}

impl TableRecord {
    /// Read a framed TableRecord object.
    pub fn read(r: &mut Reader<'_>) -> (res: Result<TableRecord, RecordError>)
        ensures
            aipsio::reads(res, final(r)@, record_at(old(r)@)),
            res matches Ok(t) ==> t@.aligned() && desc_complete(t@.desc),
        decreases old(r)@.data.len() - old(r)@.pos, 1int, Seq::<RecordDescField>::empty(),
    {
        let _here: usize = r.position();
        let ghost c0 = r@;
        proof {
            lemma_record_onward(c0);
        }
        let obj = lifted(r.read_object_start(false))?;
        if !crate::text::text_eq(obj.object_type.as_str(), "TableRecord") {
            return Err(RecordError::LegacyKeywordSet(obj.object_type));
        }
        proof {
            lemma_desc_onward(r@);
        }
        let desc = RecordDesc::read(r)?;
        let record_type = lifted(r.read_i32())?;
        let values = read_record_data(r, &desc.fields, Ghost(c0.pos))?;
        Ok(TableRecord { desc, record_type, values })
    }
}

/// Read the data fields of a record (no framing), in description order.
/// `base` is where the enclosing framed record starts.
fn read_record_data(
    r: &mut Reader<'_>,
    fields: &Vec<RecordDescField>,
    Ghost(base): Ghost<int>,
) -> (res: Result<Vec<RecordValue>, RecordError>)
    requires
        fields_complete(record::field_models(fields@)),
        0 <= base < old(r)@.pos <= old(r)@.data.len(),
    ensures
        match values_at(old(r)@, base, record::field_models(fields@), 0, Seq::empty()) {
            Ok((vs, c)) => res is Ok && record::value_models(res->Ok_0@) == vs && final(r)@ == c,
            Err((f, c)) => res is Err && res->Err_0@ == f && final(r)@ == c,
        },
    decreases old(r)@.data.len() - base, 0int, fields@,
{
    let mut values: Vec<RecordValue> = Vec::new();
    let mut i: usize = 0;
    let ghost c0 = r@;
    let ghost fs = record::field_models(fields@);
    let ghost all = values_at(c0, base, fs, 0, Seq::empty());
    assert(record::value_models(values@) =~= Seq::<ValueModel>::empty());
    while i < fields.len()
        invariant
            i <= fields@.len(),
            c0 == old(r)@,
            fs == record::field_models(fields@),
            fields_complete(fs),
            aipsio::onward(c0, r@),
            0 <= base < r@.pos <= r@.data.len(),
            all == values_at(c0, base, fs, 0, Seq::empty()),
            all == values_at(r@, base, fs, i as nat, record::value_models(values@)),
        decreases fields@.len() - i,
    {
        let ghost before = values@;
        proof {
            assert(fs[i as int] == record::field_model(fields@[i as int]));
            assert(field_complete(fs[i as int]));
            lemma_value_onward(r@, base, fs[i as int]);
        }
        let v = read_field_value(r, &fields[i], Ghost(base))?;
        proof {
            record::lemma_value_models_push(before, v);
        }
        values.push(v);
        i = i + 1;
    }
    Ok(values)
}

fn read_field_value(r: &mut Reader<'_>, field: &RecordDescField, Ghost(base): Ghost<int>) -> (res:
    Result<RecordValue, RecordError>)
    requires
        field_complete(field@),
        0 <= base < old(r)@.pos <= old(r)@.data.len(),
    ensures
        aipsio::reads(res, final(r)@, value_at(old(r)@, base, field@)),
    decreases old(r)@.data.len() - base, 0int, field,
{
    if field.data_type == DataType::Table {
        Ok(RecordValue::Table(lifted(r.read_string())?))
    } else if field.data_type == DataType::Record {
        match &field.sub_desc {
            None => {
                assert(false);
                Err(RecordError::UnknownDataType(0))
            },
            Some(sub) => if sub.fields.len() == 0 {
                Ok(RecordValue::Record(TableRecord::read(r)?))
            } else {
                let values = read_record_data(r, &sub.fields, Ghost(base))?;
                Ok(RecordValue::Record(TableRecord { desc: sub.clone(), record_type: 0, values }))
            },
        }
    } else if field.data_type.is_array() {
        Ok(RecordValue::Array(read_array(r, field.data_type.element_type())?))
    } else {
        read_scalar_value(r, field.data_type)
    }
}

} // verus!
