//! Record descriptions and table records: the keyword sets of a table.
use crate::aipsio::{AipsIoError, AipsIoFault};
use crate::text::text_eq;
use vstd::prelude::*;

verus! {

/// The data types of CASA tables.
#[derive(Debug, Clone, Copy, PartialEq, Eq, Structural)]
pub enum DataType {
    Bool,
    Char,
    UChar,
    Short,
    UShort,
    Int,
    UInt,
    Float,
    Double,
    Complex,
    DComplex,
    String,
    Table,
    Record,
    ArrayBool,
    ArrayChar,
    ArrayUChar,
    ArrayShort,
    ArrayUShort,
    ArrayInt,
    ArrayUInt,
    ArrayFloat,
    ArrayDouble,
    ArrayComplex,
    ArrayDComplex,
    ArrayString,
    Other,
    Quantity,
    ArrayQuantity,
    Int64,
    ArrayInt64,
}

/// Errors from parsing records and descriptors.
#[derive(Debug)]
pub enum RecordError {
    AipsIo(AipsIoError),
    UnknownDataType(i32),
    LegacyKeywordSet(String),
}

/// What a [`RecordError`] says.
pub enum RecordFault {
    AipsIo(AipsIoFault),
    UnknownDataType(i32),
    LegacyKeywordSet(Seq<char>),
}

impl View for RecordError {
    type V = RecordFault;

    open spec fn view(&self) -> RecordFault {
        match *self {
            RecordError::AipsIo(e) => RecordFault::AipsIo(e@),
            RecordError::UnknownDataType(v) => RecordFault::UnknownDataType(v),
            RecordError::LegacyKeywordSet(s) => RecordFault::LegacyKeywordSet(s@),
        }
    }
}

/// The on-disk code of a data type.
pub open spec fn type_code(dt: DataType) -> i32 {
    match dt {
        DataType::Bool => 0,
        DataType::Char => 1,
        DataType::UChar => 2,
        DataType::Short => 3,
        DataType::UShort => 4,
        DataType::Int => 5,
        DataType::UInt => 6,
        DataType::Float => 7,
        DataType::Double => 8,
        DataType::Complex => 9,
        DataType::DComplex => 10,
        DataType::String => 11,
        DataType::Table => 12,
        DataType::ArrayBool => 13,
        DataType::ArrayChar => 14,
        DataType::ArrayUChar => 15,
        DataType::ArrayShort => 16,
        DataType::ArrayUShort => 17,
        DataType::ArrayInt => 18,
        DataType::ArrayUInt => 19,
        DataType::ArrayFloat => 20,
        DataType::ArrayDouble => 21,
        DataType::ArrayComplex => 22,
        DataType::ArrayDComplex => 23,
        DataType::ArrayString => 24,
        DataType::Record => 25,
        DataType::Other => 26,
        DataType::Quantity => 27,
        DataType::ArrayQuantity => 28,
        DataType::Int64 => 29,
        DataType::ArrayInt64 => 30,
    }
}

/// `code` is the code of some data type.
pub open spec fn is_type_code(code: i32) -> bool {
    0 <= code <= 30
}

/// The data type with a given code.
pub open spec fn type_of_code(code: i32) -> DataType
    recommends
        is_type_code(code),
{
    choose|dt: DataType| type_code(dt) == code
}

/// The scalar type of an array type's elements; any other type itself.
pub open spec fn element_of(dt: DataType) -> DataType {
    match dt {
        DataType::ArrayBool => DataType::Bool,
        DataType::ArrayChar => DataType::Char,
        DataType::ArrayUChar => DataType::UChar,
        DataType::ArrayShort => DataType::Short,
        DataType::ArrayUShort => DataType::UShort,
        DataType::ArrayInt => DataType::Int,
        DataType::ArrayUInt => DataType::UInt,
        DataType::ArrayFloat => DataType::Float,
        DataType::ArrayDouble => DataType::Double,
        DataType::ArrayComplex => DataType::Complex,
        DataType::ArrayDComplex => DataType::DComplex,
        DataType::ArrayString => DataType::String,
        DataType::ArrayInt64 => DataType::Int64,
        DataType::ArrayQuantity => DataType::Quantity,
        other => other,
    }
}

/// Whether `dt` is one of the array types.
pub open spec fn array_type(dt: DataType) -> bool {
    element_of(dt) != dt
}

/// Different data types have different codes, and the type found by a code
/// has that code.
pub proof fn law_type_codes(a: DataType, b: DataType)
    ensures
        type_code(a) == type_code(b) ==> a == b,
        is_type_code(type_code(a)),
        type_of_code(type_code(a)) == a,
{
    let c = type_of_code(type_code(a));
    assert(type_code(a) == type_code(a));
    assert(type_code(c) == type_code(a));
}

/// An element type is never itself an array type, and only an array type has
/// an element type other than itself.
pub proof fn law_element_types(dt: DataType)
    ensures
        !array_type(element_of(dt)),
        element_of(dt) == dt <==> !array_type(dt),
        element_of(element_of(dt)) == element_of(dt),
{
}

impl DataType {
    /// The data type with code `v`.
    pub fn from_i32(v: i32) -> (r: Result<Self, RecordError>)
        ensures
            is_type_code(v) ==> r == Ok::<Self, RecordError>(type_of_code(v)) && type_code(
                r->Ok_0,
            ) == v,
            !is_type_code(v) ==> r == Err::<Self, RecordError>(RecordError::UnknownDataType(v)),
    {
        let dt = match v {
            0 => DataType::Bool,
            1 => DataType::Char,
            2 => DataType::UChar,
            3 => DataType::Short,
            4 => DataType::UShort,
            5 => DataType::Int,
            6 => DataType::UInt,
            7 => DataType::Float,
            8 => DataType::Double,
            9 => DataType::Complex,
            10 => DataType::DComplex,
            11 => DataType::String,
            12 => DataType::Table,
            13 => DataType::ArrayBool,
            14 => DataType::ArrayChar,
            15 => DataType::ArrayUChar,
            16 => DataType::ArrayShort,
            17 => DataType::ArrayUShort,
            18 => DataType::ArrayInt,
            19 => DataType::ArrayUInt,
            20 => DataType::ArrayFloat,
            21 => DataType::ArrayDouble,
            22 => DataType::ArrayComplex,
            23 => DataType::ArrayDComplex,
            24 => DataType::ArrayString,
            25 => DataType::Record,
            26 => DataType::Other,
            27 => DataType::Quantity,
            28 => DataType::ArrayQuantity,
            29 => DataType::Int64,
            30 => DataType::ArrayInt64,
            v => return Err(RecordError::UnknownDataType(v)),
        };
        proof {
            law_type_codes(dt, dt);
        }
        Ok(dt)
    }

    /// The scalar element type of an array type, or itself for scalars.
    pub fn element_type(self) -> (r: DataType)
        ensures
            r == element_of(self),
    {
        match self {
            DataType::ArrayBool => DataType::Bool,
            DataType::ArrayChar => DataType::Char,
            DataType::ArrayUChar => DataType::UChar,
            DataType::ArrayShort => DataType::Short,
            DataType::ArrayUShort => DataType::UShort,
            DataType::ArrayInt => DataType::Int,
            DataType::ArrayUInt => DataType::UInt,
            DataType::ArrayFloat => DataType::Float,
            DataType::ArrayDouble => DataType::Double,
            DataType::ArrayComplex => DataType::Complex,
            DataType::ArrayDComplex => DataType::DComplex,
            DataType::ArrayString => DataType::String,
            DataType::ArrayInt64 => DataType::Int64,
            DataType::ArrayQuantity => DataType::Quantity,
            other => other,
        }
    }

    pub fn is_array(self) -> (r: bool)
        ensures
            r == array_type(self),
    {
        match self {
            DataType::ArrayBool
            | DataType::ArrayChar
            | DataType::ArrayUChar
            | DataType::ArrayShort
            | DataType::ArrayUShort
            | DataType::ArrayInt
            | DataType::ArrayUInt
            | DataType::ArrayFloat
            | DataType::ArrayDouble
            | DataType::ArrayComplex
            | DataType::ArrayDComplex
            | DataType::ArrayString
            | DataType::ArrayQuantity
            | DataType::ArrayInt64 => true,
            _ => false,
        }
    }
}

/// The on-disk code of a data type.
pub fn data_type_code(dt: DataType) -> (r: i32)
    ensures
        r == type_code(dt),
{
    match dt {
        DataType::Bool => 0,
        DataType::Char => 1,
        DataType::UChar => 2,
        DataType::Short => 3,
        DataType::UShort => 4,
        DataType::Int => 5,
        DataType::UInt => 6,
        DataType::Float => 7,
        DataType::Double => 8,
        DataType::Complex => 9,
        DataType::DComplex => 10,
        DataType::String => 11,
        DataType::Table => 12,
        DataType::ArrayBool => 13,
        DataType::ArrayChar => 14,
        DataType::ArrayUChar => 15,
        DataType::ArrayShort => 16,
        DataType::ArrayUShort => 17,
        DataType::ArrayInt => 18,
        DataType::ArrayUInt => 19,
        DataType::ArrayFloat => 20,
        DataType::ArrayDouble => 21,
        DataType::ArrayComplex => 22,
        DataType::ArrayDComplex => 23,
        DataType::ArrayString => 24,
        DataType::Record => 25,
        DataType::Other => 26,
        DataType::Quantity => 27,
        DataType::ArrayQuantity => 28,
        DataType::Int64 => 29,
        DataType::ArrayInt64 => 30,
    }
}

/// The name of a data type.
pub open spec fn type_text(dt: DataType) -> Seq<char> {
    match dt {
        DataType::Bool => "Bool"@,
        DataType::Char => "Char"@,
        DataType::UChar => "UChar"@,
        DataType::Short => "Short"@,
        DataType::UShort => "UShort"@,
        DataType::Int => "Int"@,
        DataType::UInt => "UInt"@,
        DataType::Float => "Float"@,
        DataType::Double => "Double"@,
        DataType::Complex => "Complex"@,
        DataType::DComplex => "DComplex"@,
        DataType::String => "String"@,
        DataType::Table => "Table"@,
        DataType::Record => "Record"@,
        DataType::ArrayBool => "ArrayBool"@,
        DataType::ArrayChar => "ArrayChar"@,
        DataType::ArrayUChar => "ArrayUChar"@,
        DataType::ArrayShort => "ArrayShort"@,
        DataType::ArrayUShort => "ArrayUShort"@,
        DataType::ArrayInt => "ArrayInt"@,
        DataType::ArrayUInt => "ArrayUInt"@,
        DataType::ArrayFloat => "ArrayFloat"@,
        DataType::ArrayDouble => "ArrayDouble"@,
        DataType::ArrayComplex => "ArrayComplex"@,
        DataType::ArrayDComplex => "ArrayDComplex"@,
        DataType::ArrayString => "ArrayString"@,
        DataType::Other => "Other"@,
        DataType::Quantity => "Quantity"@,
        DataType::ArrayQuantity => "ArrayQuantity"@,
        DataType::Int64 => "Int64"@,
        DataType::ArrayInt64 => "ArrayInt64"@,
    }
}

/// The name of a data type.
pub fn data_type_name(dt: DataType) -> (r: &'static str)
    ensures
        r@ == type_text(dt),
{
    match dt {
        DataType::Bool => "Bool",
        DataType::Char => "Char",
        DataType::UChar => "UChar",
        DataType::Short => "Short",
        DataType::UShort => "UShort",
        DataType::Int => "Int",
        DataType::UInt => "UInt",
        DataType::Float => "Float",
        DataType::Double => "Double",
        DataType::Complex => "Complex",
        DataType::DComplex => "DComplex",
        DataType::String => "String",
        DataType::Table => "Table",
        DataType::Record => "Record",
        DataType::ArrayBool => "ArrayBool",
        DataType::ArrayChar => "ArrayChar",
        DataType::ArrayUChar => "ArrayUChar",
        DataType::ArrayShort => "ArrayShort",
        DataType::ArrayUShort => "ArrayUShort",
        DataType::ArrayInt => "ArrayInt",
        DataType::ArrayUInt => "ArrayUInt",
        DataType::ArrayFloat => "ArrayFloat",
        DataType::ArrayDouble => "ArrayDouble",
        DataType::ArrayComplex => "ArrayComplex",
        DataType::ArrayDComplex => "ArrayDComplex",
        DataType::ArrayString => "ArrayString",
        DataType::Other => "Other",
        DataType::Quantity => "Quantity",
        DataType::ArrayQuantity => "ArrayQuantity",
        DataType::Int64 => "Int64",
        DataType::ArrayInt64 => "ArrayInt64",
    }
}

/// One field of a record description.
#[derive(Debug, PartialEq)]
pub struct RecordDescField {
    pub name: String,
    pub data_type: DataType,
    /// Sub-record description (record fields).
    pub sub_desc: Option<RecordDesc>,
    /// Fixed shape (array fields with a set shape; empty when unfixed).
    pub shape: Option<Vec<i64>>,
    /// Referenced table description name (table fields).
    pub table_desc_name: Option<String>,
    pub comment: String,
}

/// A record description.
#[derive(Debug, PartialEq)]
pub struct RecordDesc {
    pub fields: Vec<RecordDescField>,
}

/// An array value: its logical shape and its elements, flat.
#[derive(Debug, PartialEq)]
pub struct ArrayValue {
    pub shape: Vec<u32>,
    pub data: ArrayData,
}

/// The elements of an array. Floating-point numbers are held as their IEEE
/// bit patterns; complex numbers are (real, imaginary) pairs of them.
#[derive(Debug, PartialEq)]
pub enum ArrayData {
    Bool(Vec<bool>),
    UChar(Vec<u8>),
    Short(Vec<i16>),
    UShort(Vec<u16>),
    Int(Vec<i32>),
    UInt(Vec<u32>),
    Int64(Vec<i64>),
    Float(Vec<u32>),
    Double(Vec<u64>),
    Complex(Vec<(u32, u32)>),
    DComplex(Vec<(u64, u64)>),
    String(Vec<String>),
}

/// A record field value. Floating-point numbers are held as their IEEE bit
/// patterns.
#[derive(Debug, PartialEq)]
pub enum RecordValue {
    Bool(bool),
    UChar(u8),
    Short(i16),
    UShort(u16),
    Int(i32),
    UInt(u32),
    Int64(i64),
    Float(u32),
    Double(u64),
    Complex(u32, u32),
    DComplex(u64, u64),
    String(String),
    Record(TableRecord),
    /// Name of the referenced table.
    Table(String),
    Array(ArrayValue),
}

/// A table record: description, record type, and values aligned with
/// `desc.fields`.
#[derive(Debug, PartialEq)]
pub struct TableRecord {
    pub desc: RecordDesc,
    /// 0 = Fixed, 1 = Variable.
    pub record_type: i32,
    pub values: Vec<RecordValue>,
}

/// What a [`RecordDescField`] says.
pub struct FieldModel {
    pub name: Seq<char>,
    pub data_type: DataType,
    pub sub_desc: Option<DescModel>,
    pub shape: Option<Seq<i64>>,
    pub table_desc_name: Option<Seq<char>>,
    pub comment: Seq<char>,
}

/// What a [`RecordDesc`] says.
pub struct DescModel {
    pub fields: Seq<FieldModel>,
}

/// What an [`ArrayValue`] says.
pub struct ArrayModel {
    pub shape: Seq<u32>,
    pub data: ElementsModel,
}

/// What an [`ArrayData`] says.
pub enum ElementsModel {
    Bool(Seq<bool>),
    UChar(Seq<u8>),
    Short(Seq<i16>),
    UShort(Seq<u16>),
    Int(Seq<i32>),
    UInt(Seq<u32>),
    Int64(Seq<i64>),
    Float(Seq<u32>),
    Double(Seq<u64>),
    Complex(Seq<(u32, u32)>),
    DComplex(Seq<(u64, u64)>),
    String(Seq<Seq<char>>),
}

/// What a [`RecordValue`] says.
pub enum ValueModel {
    Bool(bool),
    UChar(u8),
    Short(i16),
    UShort(u16),
    Int(i32),
    UInt(u32),
    Int64(i64),
    Float(u32),
    Double(u64),
    Complex(u32, u32),
    DComplex(u64, u64),
    String(Seq<char>),
    Record(RecordModel),
    Table(Seq<char>),
    Array(ArrayModel),
}

/// What a [`TableRecord`] says.
pub struct RecordModel {
    pub desc: DescModel,
    pub record_type: i32,
    pub values: Seq<ValueModel>,
}

/// The texts of a list of strings.
pub open spec fn texts(s: Seq<String>) -> Seq<Seq<char>> {
    s.map_values(|x: String| x@)
}

pub open spec fn field_model(f: RecordDescField) -> FieldModel
    decreases f,
{
    FieldModel {
        name: f.name@,
        data_type: f.data_type,
        sub_desc: match f.sub_desc {
            Some(d) => Some(desc_model(d)),
            None => None,
        },
        shape: match f.shape {
            Some(s) => Some(s@),
            None => None,
        },
        table_desc_name: match f.table_desc_name {
            Some(s) => Some(s@),
            None => None,
        },
        comment: f.comment@,
    }
}

pub open spec fn desc_model(d: RecordDesc) -> DescModel
    decreases d,
{
    DescModel { fields: field_models(d.fields@) }
}

pub open spec fn field_models(s: Seq<RecordDescField>) -> Seq<FieldModel>
    decreases s,
{
    Seq::new(
        s.len(),
        |i: int|
            if 0 <= i < s.len() {
                field_model(s[i])
            } else {
                arbitrary()
            },
    )
}

pub open spec fn elements_model(d: ArrayData) -> ElementsModel {
    match d {
        ArrayData::Bool(v) => ElementsModel::Bool(v@),
        ArrayData::UChar(v) => ElementsModel::UChar(v@),
        ArrayData::Short(v) => ElementsModel::Short(v@),
        ArrayData::UShort(v) => ElementsModel::UShort(v@),
        ArrayData::Int(v) => ElementsModel::Int(v@),
        ArrayData::UInt(v) => ElementsModel::UInt(v@),
        ArrayData::Int64(v) => ElementsModel::Int64(v@),
        ArrayData::Float(v) => ElementsModel::Float(v@),
        ArrayData::Double(v) => ElementsModel::Double(v@),
        ArrayData::Complex(v) => ElementsModel::Complex(v@),
        ArrayData::DComplex(v) => ElementsModel::DComplex(v@),
        ArrayData::String(v) => ElementsModel::String(texts(v@)),
    }
}

pub open spec fn array_model(a: ArrayValue) -> ArrayModel {
    ArrayModel { shape: a.shape@, data: elements_model(a.data) }
}

pub open spec fn value_model(v: RecordValue) -> ValueModel
    decreases v,
{
    match v {
        RecordValue::Bool(x) => ValueModel::Bool(x),
        RecordValue::UChar(x) => ValueModel::UChar(x),
        RecordValue::Short(x) => ValueModel::Short(x),
        RecordValue::UShort(x) => ValueModel::UShort(x),
        RecordValue::Int(x) => ValueModel::Int(x),
        RecordValue::UInt(x) => ValueModel::UInt(x),
        RecordValue::Int64(x) => ValueModel::Int64(x),
        RecordValue::Float(x) => ValueModel::Float(x),
        RecordValue::Double(x) => ValueModel::Double(x),
        RecordValue::Complex(x, y) => ValueModel::Complex(x, y),
        RecordValue::DComplex(x, y) => ValueModel::DComplex(x, y),
        RecordValue::String(s) => ValueModel::String(s@),
        RecordValue::Record(r) => ValueModel::Record(record_model(r)),
        RecordValue::Table(s) => ValueModel::Table(s@),
        RecordValue::Array(a) => ValueModel::Array(array_model(a)),
    }
}

pub open spec fn record_model(r: TableRecord) -> RecordModel
    decreases r,
{
    RecordModel {
        desc: desc_model(r.desc),
        record_type: r.record_type,
        values: value_models(r.values@),
    }
}

pub open spec fn value_models(s: Seq<RecordValue>) -> Seq<ValueModel>
    decreases s,
{
    Seq::new(
        s.len(),
        |i: int|
            if 0 <= i < s.len() {
                value_model(s[i])
            } else {
                arbitrary()
            },
    )
}

impl View for RecordDescField {
    type V = FieldModel;

    open spec fn view(&self) -> FieldModel {
        field_model(*self)
    }
}

impl View for RecordDesc {
    type V = DescModel;

    open spec fn view(&self) -> DescModel {
        desc_model(*self)
    }
}

impl View for ArrayData {
    type V = ElementsModel;

    open spec fn view(&self) -> ElementsModel {
        elements_model(*self)
    }
}

impl View for ArrayValue {
    type V = ArrayModel;

    open spec fn view(&self) -> ArrayModel {
        array_model(*self)
    }
}

impl View for RecordValue {
    type V = ValueModel;

    open spec fn view(&self) -> ValueModel {
        value_model(*self)
    }
}

impl View for TableRecord {
    type V = RecordModel;

    open spec fn view(&self) -> RecordModel {
        record_model(*self)
    }
}

/// Field `i` is the first field called `name`.
pub open spec fn is_first_named(fields: Seq<FieldModel>, name: Seq<char>, i: int) -> bool {
    &&& 0 <= i < fields.len()
    &&& fields[i].name == name
    &&& forall|j: int| 0 <= j < i ==> (#[trigger] fields[j]).name != name
}

/// The index of the first field called `name`.
pub open spec fn field_index(fields: Seq<FieldModel>, name: Seq<char>) -> Option<int> {
    if exists|i: int| is_first_named(fields, name, i) {
        Some(choose|i: int| is_first_named(fields, name, i))
    } else {
        None
    }
}

pub proof fn lemma_field_index(fields: Seq<FieldModel>, name: Seq<char>, i: int)
    requires
        is_first_named(fields, name, i),
    ensures
        field_index(fields, name) == Some(i),
{
    let k = choose|k: int| is_first_named(fields, name, k);
    assert(is_first_named(fields, name, k));
    if k < i {
        assert(fields[k].name != name);
    }
    if i < k {
        assert(fields[i].name != name);
    }
}

pub proof fn lemma_no_field_index(fields: Seq<FieldModel>, name: Seq<char>)
    requires
        forall|j: int| 0 <= j < fields.len() ==> (#[trigger] fields[j]).name != name,
    ensures
        field_index(fields, name) is None,
{
}

/// A name that occurs has a first occurrence, at or before any other.
pub proof fn lemma_named_has_index(fields: Seq<FieldModel>, name: Seq<char>, k: int)
    requires
        0 <= k < fields.len(),
        fields[k].name == name,
    ensures
        field_index(fields, name) matches Some(i) && is_first_named(fields, name, i) && i <= k,
    decreases k,
{
    if exists|j: int| 0 <= j < k && (#[trigger] fields[j]).name == name {
        let j = choose|j: int| 0 <= j < k && (#[trigger] fields[j]).name == name;
        lemma_named_has_index(fields, name, j);
    } else {
        assert(is_first_named(fields, name, k));
        lemma_field_index(fields, name, k);
    }
}

/// No two fields share a name.
pub open spec fn distinct_names(fields: Seq<FieldModel>) -> bool {
    forall|i: int, j: int|
        0 <= i < j < fields.len() ==> (#[trigger] fields[i]).name != (#[trigger] fields[j]).name
}

/// The type code that represents a value as a keyword.
pub open spec fn inferred_type(v: ValueModel) -> DataType {
    match v {
        ValueModel::Bool(_) => DataType::Bool,
        ValueModel::UChar(_) => DataType::UChar,
        ValueModel::Short(_) => DataType::Short,
        ValueModel::UShort(_) => DataType::UShort,
        ValueModel::Int(_) => DataType::Int,
        ValueModel::UInt(_) => DataType::UInt,
        ValueModel::Int64(_) => DataType::Int64,
        ValueModel::Float(_) => DataType::Float,
        ValueModel::Double(_) => DataType::Double,
        ValueModel::Complex(_, _) => DataType::Complex,
        ValueModel::DComplex(_, _) => DataType::DComplex,
        ValueModel::String(_) => DataType::String,
        ValueModel::Table(_) => DataType::Table,
        ValueModel::Record(_) => DataType::Record,
        ValueModel::Array(a) => match a.data {
            ElementsModel::Bool(_) => DataType::ArrayBool,
            ElementsModel::UChar(_) => DataType::ArrayUChar,
            ElementsModel::Short(_) => DataType::ArrayShort,
            ElementsModel::UShort(_) => DataType::ArrayUShort,
            ElementsModel::Int(_) => DataType::ArrayInt,
            ElementsModel::UInt(_) => DataType::ArrayUInt,
            ElementsModel::Int64(_) => DataType::ArrayInt64,
            ElementsModel::Float(_) => DataType::ArrayFloat,
            ElementsModel::Double(_) => DataType::ArrayDouble,
            ElementsModel::Complex(_) => DataType::ArrayComplex,
            ElementsModel::DComplex(_) => DataType::ArrayDComplex,
            ElementsModel::String(_) => DataType::ArrayString,
        },
    }
}

impl RecordModel {
    /// The value of the first field called `name`, where there is one.
    pub open spec fn get(self, name: Seq<char>) -> Option<ValueModel> {
        match field_index(self.desc.fields, name) {
            Some(i) => if i < self.values.len() {
                Some(self.values[i])
            } else {
                None
            },
            None => None,
        }
    }

    /// The record with `name` set to `v`: an existing field is retyped and
    /// revalued, otherwise a new one is appended.
    pub open spec fn set(self, name: Seq<char>, v: ValueModel) -> RecordModel {
        match field_index(self.desc.fields, name) {
            Some(i) => {
                let f = self.desc.fields[i];
                let g = FieldModel {
                    data_type: inferred_type(v),
                    sub_desc: match v {
                        ValueModel::Record(r) => Some(r.desc),
                        _ => f.sub_desc,
                    },
                    ..f
                };
                RecordModel {
                    desc: DescModel { fields: self.desc.fields.update(i, g) },
                    values: self.values.update(i, v),
                    ..self
                }
            },
            None => RecordModel {
                desc: DescModel {
                    fields: self.desc.fields.push(
                        FieldModel {
                            name,
                            data_type: inferred_type(v),
                            sub_desc: match v {
                                ValueModel::Record(r) => Some(r.desc),
                                _ => None,
                            },
                            shape: None,
                            table_desc_name: None,
                            comment: Seq::empty(),
                        },
                    ),
                },
                values: self.values.push(v),
                ..self
            },
        }
    }

    /// The record without the first field called `name`.
    pub open spec fn remove(self, name: Seq<char>) -> RecordModel {
        match field_index(self.desc.fields, name) {
            Some(i) => RecordModel {
                desc: DescModel { fields: self.desc.fields.remove(i) },
                values: self.values.remove(i),
                ..self
            },
            None => self,
        }
    }

    /// There is a value for every field.
    pub open spec fn aligned(self) -> bool {
        self.values.len() == self.desc.fields.len()
    }

    /// The first field called `name`, if there is one, has a value.
    pub open spec fn backed(self, name: Seq<char>) -> bool {
        field_index(self.desc.fields, name) matches Some(i) ==> i < self.values.len()
    }
}

/// A keyword that was set is read back; the others stay as they were; and
/// the values stay aligned with the fields.
pub proof fn law_set_get(m: RecordModel, name: Seq<char>, v: ValueModel, other: Seq<char>)
    requires
        m.aligned(),
    ensures
        m.set(name, v).aligned(),
        m.set(name, v).get(name) == Some(v),
        other != name ==> m.set(name, v).get(other) == m.get(other),
        distinct_names(m.desc.fields) ==> distinct_names(m.set(name, v).desc.fields),
{
    let fs = m.desc.fields;
    let gs = m.set(name, v).desc.fields;
    match field_index(fs, name) {
        Some(i) => {
            assert(is_first_named(fs, name, i));
            assert(is_first_named(gs, name, i));
            lemma_field_index(gs, name, i);
        },
        None => {
            let n = fs.len() as int;
            assert forall|j: int| 0 <= j < n implies (#[trigger] gs[j]).name != name by {
                if fs[j].name == name {
                    lemma_named_has_index(fs, name, j);
                }
            }
            assert forall|j: int| 0 <= j < n implies (#[trigger] fs[j]).name != name by {
                assert(gs[j].name != name);
            }
            assert(is_first_named(gs, name, n));
            lemma_field_index(gs, name, n);
        },
    }
    if other != name {
        match field_index(fs, other) {
            Some(k) => {
                assert(is_first_named(fs, other, k));
                assert forall|j: int| 0 <= j < k implies (#[trigger] gs[j]).name != other by {
                    assert(fs[j].name != other);
                }
                assert(is_first_named(gs, other, k));
                lemma_field_index(gs, other, k);
            },
            None => {
                assert forall|j: int| 0 <= j < gs.len() implies (#[trigger] gs[j]).name
                    != other by {
                    if j < fs.len() && fs[j].name == other {
                        lemma_named_has_index(fs, other, j);
                    }
                }
                lemma_no_field_index(gs, other);
            },
        }
    }
}

/// Removing a keyword takes it out and leaves the others; the values stay
/// aligned with the fields.
pub proof fn law_remove_get(m: RecordModel, name: Seq<char>, other: Seq<char>)
    requires
        m.aligned(),
        distinct_names(m.desc.fields),
    ensures
        m.remove(name).aligned(),
        m.remove(name).get(name) is None,
        other != name ==> m.remove(name).get(other) == m.get(other),
        distinct_names(m.remove(name).desc.fields),
{
    let fs = m.desc.fields;
    let gs = m.remove(name).desc.fields;
    match field_index(fs, name) {
        Some(i) => {
            assert(is_first_named(fs, name, i));
            assert forall|j: int| 0 <= j < gs.len() implies #[trigger] gs[j] == fs[if j < i {
                j
            } else {
                j + 1
            }] by {}
            assert forall|j: int| 0 <= j < gs.len() implies (#[trigger] gs[j]).name != name by {
                let k = if j < i { j } else { j + 1 };
                assert(gs[j] == fs[k]);
                assert(fs[i].name == name);
                if j < i {
                    assert(fs[k].name != name);
                }
            }
            lemma_no_field_index(gs, name);
            if other != name {
                match field_index(fs, other) {
                    Some(k) => {
                        assert(is_first_named(fs, other, k));
                        let q = if k < i { k } else { k - 1 };
                        assert(k != i);
                        assert(gs[q] == fs[k]);
                        assert forall|j: int| 0 <= j < q implies (#[trigger] gs[j]).name
                            != other by {
                            let t = if j < i { j } else { j + 1 };
                            assert(gs[j] == fs[t]);
                            assert(fs[t].name != other);
                        }
                        assert(is_first_named(gs, other, q));
                        lemma_field_index(gs, other, q);
                    },
                    None => {
                        assert forall|j: int| 0 <= j < gs.len() implies (#[trigger] gs[j]).name
                            != other by {
                            let t = if j < i { j } else { j + 1 };
                            assert(gs[j] == fs[t]);
                            if fs[t].name == other {
                                lemma_named_has_index(fs, other, t);
                            }
                        }
                        lemma_no_field_index(gs, other);
                    },
                }
            }
        },
        None => {},
    }
}

pub proof fn lemma_field_models_push(s: Seq<RecordDescField>, f: RecordDescField)
    ensures
        field_models(s.push(f)) == field_models(s).push(field_model(f)),
{
    assert(field_models(s.push(f)) =~= field_models(s).push(field_model(f)));
}

pub proof fn lemma_value_models_push(s: Seq<RecordValue>, v: RecordValue)
    ensures
        value_models(s.push(v)) == value_models(s).push(value_model(v)),
{
    assert(value_models(s.push(v)) =~= value_models(s).push(value_model(v)));
}

/// The position of the first field called `name`.
fn position(fields: &Vec<RecordDescField>, name: &str) -> (r: Option<usize>)
    ensures
        match r {
            Some(i) => field_index(field_models(fields@), name@) == Some(i as int) && i
                < fields@.len(),
            None => field_index(field_models(fields@), name@) is None,
        },
{
    let ghost fs = field_models(fields@);
    let mut i: usize = 0;
    while i < fields.len()
        invariant
            i <= fields@.len(),
            fs == field_models(fields@),
            forall|j: int| 0 <= j < i ==> (#[trigger] fs[j]).name != name@,
        decreases fields@.len() - i,
    {
        if text_eq(fields[i].name.as_str(), name) {
            proof {
                assert(is_first_named(fs, name@, i as int));
                lemma_field_index(fs, name@, i as int);
            }
            return Some(i);
        }
        i = i + 1;
    }
    proof {
        lemma_no_field_index(fs, name@);
    }
    None
}

impl RecordDescField {
    fn duplicate(&self) -> (r: RecordDescField)
        ensures
            r@ == self@,
        decreases self,
    {
        let sub_desc = match &self.sub_desc {
            Some(d) => Some(d.duplicate()),
            None => None,
        };
        let shape = match &self.shape {
            Some(s) => {
                let t = s.clone();
                assert(t@ =~= s@);
                Some(t)
            },
            None => None,
        };
        let table_desc_name = match &self.table_desc_name {
            Some(s) => Some(s.clone()),
            None => None,
        };
        RecordDescField {
            name: self.name.clone(),
            data_type: self.data_type,
            sub_desc,
            shape,
            table_desc_name,
            comment: self.comment.clone(),
        }
    }
}

impl RecordDesc {
    fn duplicate(&self) -> (r: RecordDesc)
        ensures
            r@ == self@,
        decreases self,
    {
        let mut fields: Vec<RecordDescField> = Vec::new();
        let mut i: usize = 0;
        while i < self.fields.len()
            invariant
                i <= self.fields@.len(),
                fields@.len() == i,
                forall|j: int|
                    0 <= j < i ==> field_model(#[trigger] fields@[j]) == field_model(
                        self.fields@[j],
                    ),
            decreases self.fields@.len() - i,
        {
            let f = self.fields[i].duplicate();
            fields.push(f);
            i = i + 1;
        }
        assert(field_models(fields@) =~= field_models(self.fields@));
        RecordDesc { fields }
    }

    /// The first field called `name`.
    pub fn field(&self, name: &str) -> (r: Option<&RecordDescField>)
        ensures
            match field_index(self@.fields, name@) {
                Some(i) => r is Some && r->0@ == self@.fields[i],
                None => r is None,
            },
    {
        match position(&self.fields, name) {
            Some(i) => Some(&self.fields[i]),
            None => None,
        }
    }
}

impl Clone for RecordDescField {
    fn clone(&self) -> (r: RecordDescField)
        ensures
            r@ == self@,
    {
        self.duplicate()
    }
}

impl Clone for RecordDesc {
    fn clone(&self) -> (r: RecordDesc)
        ensures
            r@ == self@,
    {
        self.duplicate()
    }
}

impl Default for RecordDesc {
    fn default() -> (r: RecordDesc)
        ensures
            r@.fields == Seq::<FieldModel>::empty(),
    {
        let r = RecordDesc { fields: Vec::new() };
        assert(r@.fields =~= Seq::empty());
        r
    }
}

impl Clone for ArrayData {
    fn clone(&self) -> (r: ArrayData)
        ensures
            r@ == self@,
    {
        match self {
            ArrayData::Bool(v) => {
                let t = v.clone();
                assert(t@ =~= v@);
                ArrayData::Bool(t)
            },
            ArrayData::UChar(v) => {
                let t = v.clone();
                assert(t@ =~= v@);
                ArrayData::UChar(t)
            },
            ArrayData::Short(v) => {
                let t = v.clone();
                assert(t@ =~= v@);
                ArrayData::Short(t)
            },
            ArrayData::UShort(v) => {
                let t = v.clone();
                assert(t@ =~= v@);
                ArrayData::UShort(t)
            },
            ArrayData::Int(v) => {
                let t = v.clone();
                assert(t@ =~= v@);
                ArrayData::Int(t)
            },
            ArrayData::UInt(v) => {
                let t = v.clone();
                assert(t@ =~= v@);
                ArrayData::UInt(t)
            },
            ArrayData::Int64(v) => {
                let t = v.clone();
                assert(t@ =~= v@);
                ArrayData::Int64(t)
            },
            ArrayData::Float(v) => {
                let t = v.clone();
                assert(t@ =~= v@);
                ArrayData::Float(t)
            },
            ArrayData::Double(v) => {
                let t = v.clone();
                assert(t@ =~= v@);
                ArrayData::Double(t)
            },
            ArrayData::Complex(v) => ArrayData::Complex(vstd::slice::slice_to_vec(v.as_slice())),
            ArrayData::DComplex(v) => ArrayData::DComplex(vstd::slice::slice_to_vec(v.as_slice())),
            ArrayData::String(v) => {
                let t = v.clone();
                assert(texts(t@) =~= texts(v@));
                ArrayData::String(t)
            },
        }
    }
}

impl Clone for ArrayValue {
    fn clone(&self) -> (r: ArrayValue)
        ensures
            r@ == self@,
    {
        let shape = self.shape.clone();
        assert(shape@ =~= self.shape@);
        ArrayValue { shape, data: self.data.clone() }
    }
}

impl RecordValue {
    fn duplicate(&self) -> (r: RecordValue)
        ensures
            r@ == self@,
        decreases self,
    {
        match self {
            RecordValue::Bool(x) => RecordValue::Bool(*x),
            RecordValue::UChar(x) => RecordValue::UChar(*x),
            RecordValue::Short(x) => RecordValue::Short(*x),
            RecordValue::UShort(x) => RecordValue::UShort(*x),
            RecordValue::Int(x) => RecordValue::Int(*x),
            RecordValue::UInt(x) => RecordValue::UInt(*x),
            RecordValue::Int64(x) => RecordValue::Int64(*x),
            RecordValue::Float(x) => RecordValue::Float(*x),
            RecordValue::Double(x) => RecordValue::Double(*x),
            RecordValue::Complex(x, y) => RecordValue::Complex(*x, *y),
            RecordValue::DComplex(x, y) => RecordValue::DComplex(*x, *y),
            RecordValue::String(s) => RecordValue::String(s.clone()),
            RecordValue::Record(r) => RecordValue::Record(r.duplicate()),
            RecordValue::Table(s) => RecordValue::Table(s.clone()),
            RecordValue::Array(a) => RecordValue::Array(a.clone()),
        }
    }
}

impl Clone for RecordValue {
    fn clone(&self) -> (r: RecordValue)
        ensures
            r@ == self@,
    {
        self.duplicate()
    }
}

impl Clone for TableRecord {
    fn clone(&self) -> (r: TableRecord)
        ensures
            r@ == self@,
    {
        self.duplicate()
    }
}

/// The data type that best represents a value, for a new keyword field.
pub fn infer_data_type(value: &RecordValue) -> (r: DataType)
    ensures
        r == inferred_type(value@),
{
    match value {
        RecordValue::Bool(_) => DataType::Bool,
        RecordValue::UChar(_) => DataType::UChar,
        RecordValue::Short(_) => DataType::Short,
        RecordValue::UShort(_) => DataType::UShort,
        RecordValue::Int(_) => DataType::Int,
        RecordValue::UInt(_) => DataType::UInt,
        RecordValue::Int64(_) => DataType::Int64,
        RecordValue::Float(_) => DataType::Float,
        RecordValue::Double(_) => DataType::Double,
        RecordValue::Complex(_, _) => DataType::Complex,
        RecordValue::DComplex(_, _) => DataType::DComplex,
        RecordValue::String(_) => DataType::String,
        RecordValue::Table(_) => DataType::Table,
        RecordValue::Record(_) => DataType::Record,
        RecordValue::Array(a) => match &a.data {
            ArrayData::Bool(_) => DataType::ArrayBool,
            ArrayData::UChar(_) => DataType::ArrayUChar,
            ArrayData::Short(_) => DataType::ArrayShort,
            ArrayData::UShort(_) => DataType::ArrayUShort,
            ArrayData::Int(_) => DataType::ArrayInt,
            ArrayData::UInt(_) => DataType::ArrayUInt,
            ArrayData::Int64(_) => DataType::ArrayInt64,
            ArrayData::Float(_) => DataType::ArrayFloat,
            ArrayData::Double(_) => DataType::ArrayDouble,
            ArrayData::Complex(_) => DataType::ArrayComplex,
            ArrayData::DComplex(_) => DataType::ArrayDComplex,
            ArrayData::String(_) => DataType::ArrayString,
        },
    }
}

impl TableRecord {
    fn duplicate(&self) -> (r: TableRecord)
        ensures
            r@ == self@,
        decreases self,
    {
        let mut values: Vec<RecordValue> = Vec::new();
        let mut i: usize = 0;
        while i < self.values.len()
            invariant
                i <= self.values@.len(),
                values@.len() == i,
                forall|j: int|
                    0 <= j < i ==> value_model(#[trigger] values@[j]) == value_model(
                        self.values@[j],
                    ),
            decreases self.values@.len() - i,
        {
            let v = self.values[i].duplicate();
            values.push(v);
            i = i + 1;
        }
        assert(value_models(values@) =~= value_models(self.values@));
        TableRecord { desc: self.desc.duplicate(), record_type: self.record_type, values }
    }

    /// The value of the first field called `name`, with the fact that it is
    /// smaller than the record, for recursion over nested records.
    pub(crate) fn get_with_proof(&self, name: &str) -> (r: Option<&RecordValue>)
        ensures
            match self@.get(name@) {
                Some(v) => r is Some && r->0@ == v,
                None => r is None,
            },
            r matches Some(v) ==> decreases_to!(*self => *v),
    {
        match position(&self.desc.fields, name) {
            Some(i) => if i < self.values.len() {
                assert(decreases_to!(*self => self.values));
                assert(decreases_to!(self.values => self.values@));
                assert(decreases_to!(self.values@ => self.values@[i as int]));
                Some(&self.values[i])
            } else {
                None
            },
            None => None,
        }
    }

    /// Value of the first field called `name`.
    pub fn get(&self, name: &str) -> (r: Option<&RecordValue>)
        ensures
            match self@.get(name@) {
                Some(v) => r is Some && r->0@ == v,
                None => r is None,
            },
    {
        match position(&self.desc.fields, name) {
            Some(i) => if i < self.values.len() {
                Some(&self.values[i])
            } else {
                None
            },
            None => None,
        }
    }

    /// Set (or append) a keyword field, inferring its data type from the
    /// value.
    pub fn set(&mut self, name: &str, value: RecordValue)
        requires
            old(self)@.backed(name@),
        ensures
            final(self)@ == old(self)@.set(name@, value@),
    {
        let ghost start = self@;
        let ghost vm = value@;
        let data_type = infer_data_type(&value);
        let sub_desc: Option<RecordDesc> = match &value {
            RecordValue::Record(sub) => Some(sub.desc.clone()),
            _ => None,
        };
        match position(&self.desc.fields, name) {
            Some(i) => {
                let ghost before = self.desc.fields@;
                let old_field = self.desc.fields[i].clone();
                let sub_desc = match sub_desc {
                    Some(d) => Some(d),
                    None => old_field.sub_desc,
                };
                let field = RecordDescField {
                    name: old_field.name,
                    data_type,
                    sub_desc,
                    shape: old_field.shape,
                    table_desc_name: old_field.table_desc_name,
                    comment: old_field.comment,
                };
                let ghost fm = field@;
                self.desc.fields.set(i, field);
                self.values.set(i, value);
                proof {
                    assert(fm == start.set(name@, vm).desc.fields[i as int]);
                    assert(self@.desc.fields =~= start.set(name@, vm).desc.fields);
                    assert(self@.values =~= start.set(name@, vm).values);
                }
            },
            None => {
                let field = RecordDescField {
                    name: name.to_owned(),
                    data_type,
                    sub_desc,
                    shape: None,
                    table_desc_name: None,
                    comment: String::new(),
                };
                let ghost fm = field@;
                self.desc.fields.push(field);
                self.values.push(value);
                proof {
                    assert(fm.comment =~= Seq::<char>::empty());
                    assert(self@.desc.fields =~= start.desc.fields.push(fm));
                    assert(self@.values =~= start.values.push(vm));
                }
            },
        }
    }

    /// Remove the first field called `name`, if present.
    pub fn remove(&mut self, name: &str)
        requires
            old(self)@.backed(name@),
        ensures
            final(self)@ == old(self)@.remove(name@),
    {
        let ghost start = self@;
        match position(&self.desc.fields, name) {
            Some(i) => {
                let _ = self.desc.fields.remove(i);
                let _ = self.values.remove(i);
                proof {
                    assert(self@.desc.fields =~= start.remove(name@).desc.fields);
                    assert(self@.values =~= start.remove(name@).values);
                }
            },
            None => {},
        }
    }
}

/// Setting a keyword keeps the order of the fields: a field that is there stays
/// in its place, and a new one comes last. The field gets the type of the
/// value, and no other field or value changes.
pub proof fn law_set_in_place(m: RecordModel, name: Seq<char>, v: ValueModel)
    requires
        m.aligned(),
    ensures
        ({
            let n = m.set(name, v);
            let at = match field_index(m.desc.fields, name) {
                Some(i) => i,
                None => m.desc.fields.len() as int,
            };
            &&& 0 <= at < n.desc.fields.len()
            &&& n.values.len() == n.desc.fields.len()
            &&& n.desc.fields.len() == m.desc.fields.len() + if at == m.desc.fields.len() {
                1int
            } else {
                0
            }
            &&& n.desc.fields[at].name == name && n.values[at] == v
            &&& n.desc.fields[at].data_type == inferred_type(v)
            &&& forall|i: int|
                0 <= i < m.desc.fields.len() && i != at ==> n.desc.fields[i] == m.desc.fields[i]
                    && #[trigger] n.values[i] == m.values[i]
            &&& forall|i: int| 0 <= i < at ==> (#[trigger] m.desc.fields[i]).name != name
        }),
{
    let fs = m.desc.fields;
    match field_index(fs, name) {
        Some(i) => {
            assert(is_first_named(fs, name, i));
        },
        None => {
            assert forall|i: int| 0 <= i < fs.len() implies (#[trigger] fs[i]).name != name by {
                if fs[i].name == name {
                    lemma_named_has_index(fs, name, i);
                }
            }
        },
    }
}

/// Removing a keyword takes one field with its value out and keeps the others
/// in their order; where there is none of the name, nothing changes.
pub proof fn law_removed_in_place(m: RecordModel, name: Seq<char>, at: int)
    requires
        m.aligned(),
        0 <= at <= m.desc.fields.len(),
        forall|i: int| 0 <= i < at ==> (#[trigger] m.desc.fields[i]).name != name,
        at < m.desc.fields.len() ==> m.desc.fields[at].name == name,
    ensures
        ({
            let n = m.remove(name);
            if at == m.desc.fields.len() {
                n == m
            } else {
                &&& n.desc.fields.len() == m.desc.fields.len() - 1
                &&& n.values.len() == m.values.len() - 1
                &&& forall|i: int|
                    0 <= i < at ==> n.desc.fields[i] == m.desc.fields[i] && #[trigger] n.values[i]
                        == m.values[i]
                &&& forall|i: int|
                    at <= i < n.values.len() ==> n.desc.fields[i] == m.desc.fields[i + 1]
                        && #[trigger] n.values[i] == m.values[i + 1]
            }
        }),
{
    let fs = m.desc.fields;
    if at < fs.len() {
        assert(is_first_named(fs, name, at));
        lemma_field_index(fs, name, at);
    } else if let Some(i) = field_index(fs, name) {
        assert(is_first_named(fs, name, i));
    }
}

} // verus!
