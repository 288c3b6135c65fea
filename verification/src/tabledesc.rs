//! The `TableDesc` object inside `table.dat`.
//!
//! Layout: framed `"TableDesc"` v2 object containing name/version/comment
//! strings, the public and private keyword records, then a `u32` column count
//! followed by that many column descriptors. Each column descriptor is a
//! `u32` class version, a class name string (e.g. `"ScalarColumnDesc<Int   "`),
//! the base fields, a keyword record, and class-specific data (scalar default
//! value or array flag).
use crate::aipsio;
use crate::aipsio::{AipsIoError, AipsIoFault, Cursor, Reader, Step, Writer};
use crate::record;
use crate::record::{
    data_type_code, DataType, DescModel, RecordDesc, RecordError, RecordFault, RecordModel,
    RecordValue, TableRecord, ValueModel,
};
use crate::recordio;
use crate::recordio::read_scalar_value;
use crate::recordout;
use crate::recordout::{write_iposition, write_scalar_value, write_table_record};
use crate::text;
use crate::text::{starts_with, text_eq};
use crate::types::ValueType;
use vstd::prelude::*;

verus! {

/// Errors from parsing a table description.
#[derive(Debug)]
pub enum TableDescError {
    AipsIo(AipsIoError),
    Record(RecordError),
    UnexpectedType { expected: String, found: String },
    UnknownColumnClass(String),
}

/// What a [`TableDescError`] says.
pub enum TableDescFault {
    AipsIo(AipsIoFault),
    Record(RecordFault),
    UnexpectedType { expected: Seq<char>, found: Seq<char> },
    UnknownColumnClass(Seq<char>),
}

impl View for TableDescError {
    type V = TableDescFault;

    open spec fn view(&self) -> TableDescFault {
        match *self {
            TableDescError::AipsIo(e) => TableDescFault::AipsIo(e@),
            TableDescError::Record(e) => TableDescFault::Record(e@),
            TableDescError::UnexpectedType { expected, found } => TableDescFault::UnexpectedType {
                expected: expected@,
                found: found@,
            },
            TableDescError::UnknownColumnClass(s) => TableDescFault::UnknownColumnClass(s@),
        }
    }
}

/// What kind of column a descriptor describes.
#[derive(Debug, PartialEq)]
pub enum ColumnKind {
    /// Scalar column, with its default value.
    Scalar(RecordValue),
    /// Array column (fixed or variable shape).
    Array,
    /// Scalar record column (no default stored).
    Record,
}

/// What a [`ColumnKind`] says.
pub enum KindModel {
    Scalar(ValueModel),
    Array,
    Record,
}

impl View for ColumnKind {
    type V = KindModel;

    open spec fn view(&self) -> KindModel {
        match *self {
            ColumnKind::Scalar(v) => KindModel::Scalar(v@),
            ColumnKind::Array => KindModel::Array,
            ColumnKind::Record => KindModel::Record,
        }
    }
}

impl Clone for ColumnKind {
    fn clone(&self) -> (r: ColumnKind)
        ensures
            r@ == self@,
    {
        match self {
            ColumnKind::Scalar(v) => ColumnKind::Scalar(v.clone()),
            ColumnKind::Array => ColumnKind::Array,
            ColumnKind::Record => ColumnKind::Record,
        }
    }
}

/// A column descriptor.
#[derive(Debug, PartialEq)]
pub struct ColumnDesc {
    pub name: String,
    pub comment: String,
    /// Element data type (scalar DataType, e.g. `DataType::Int`).
    pub data_type: DataType,
    /// Data manager type name, e.g. `"StandardStMan"`.
    pub data_manager_type: String,
    /// Data manager group name.
    pub data_manager_group: String,
    /// Option bitmask.
    pub options: i32,
    /// Number of dimensions (-1 = scalar or variable).
    pub ndim: i32,
    /// Fixed shape for array columns.
    pub shape: Option<Vec<i64>>,
    pub max_length: i32,
    pub keywords: TableRecord,
    pub kind: ColumnKind,
}

/// What a [`ColumnDesc`] says.
pub struct ColumnModel {
    pub name: Seq<char>,
    pub comment: Seq<char>,
    pub data_type: DataType,
    pub data_manager_type: Seq<char>,
    pub data_manager_group: Seq<char>,
    pub options: i32,
    pub ndim: i32,
    pub shape: Option<Seq<i64>>,
    pub max_length: i32,
    pub keywords: RecordModel,
    pub kind: KindModel,
}

impl View for ColumnDesc {
    type V = ColumnModel;

    open spec fn view(&self) -> ColumnModel {
        ColumnModel {
            name: self.name@,
            comment: self.comment@,
            data_type: self.data_type,
            data_manager_type: self.data_manager_type@,
            data_manager_group: self.data_manager_group@,
            options: self.options,
            ndim: self.ndim,
            shape: match self.shape {
                Some(s) => Some(s@),
                None => None,
            },
            max_length: self.max_length,
            keywords: self.keywords@,
            kind: self.kind@,
        }
    }
}

impl Clone for ColumnDesc {
    fn clone(&self) -> (r: ColumnDesc)
        ensures
            r@ == self@,
    {
        let shape = match &self.shape {
            Some(s) => {
                let t = s.clone();
                assert(t@ =~= s@);
                Some(t)
            },
            None => None,
        };
        ColumnDesc {
            name: self.name.clone(),
            comment: self.comment.clone(),
            data_type: self.data_type,
            data_manager_type: self.data_manager_type.clone(),
            data_manager_group: self.data_manager_group.clone(),
            options: self.options,
            ndim: self.ndim,
            shape,
            max_length: self.max_length,
            keywords: self.keywords.clone(),
            kind: self.kind.clone(),
        }
    }
}

/// The value type of a data type, for the plain ones.
pub open spec fn value_type_of(dt: DataType) -> Option<ValueType> {
    match dt {
        DataType::Bool => Some(ValueType::Bool),
        DataType::UChar => Some(ValueType::Byte),
        DataType::Short => Some(ValueType::Short),
        DataType::UShort => Some(ValueType::UShort),
        DataType::Int => Some(ValueType::Int),
        DataType::UInt => Some(ValueType::UInt),
        DataType::Float => Some(ValueType::Float),
        DataType::Double => Some(ValueType::Double),
        DataType::Complex => Some(ValueType::Complex),
        DataType::DComplex => Some(ValueType::DComplex),
        DataType::String => Some(ValueType::String),
        _ => None,
    }
}

impl ColumnDesc {
    /// The corresponding CASA value type, if the column holds a plain
    /// value type (not a record).
    pub fn value_type(&self) -> (r: Option<ValueType>)
        ensures
            r == value_type_of(self@.data_type),
    {
        match self.data_type {
            DataType::Bool => Some(ValueType::Bool),
            DataType::UChar => Some(ValueType::Byte),
            DataType::Short => Some(ValueType::Short),
            DataType::UShort => Some(ValueType::UShort),
            DataType::Int => Some(ValueType::Int),
            DataType::UInt => Some(ValueType::UInt),
            DataType::Float => Some(ValueType::Float),
            DataType::Double => Some(ValueType::Double),
            DataType::Complex => Some(ValueType::Complex),
            DataType::DComplex => Some(ValueType::DComplex),
            DataType::String => Some(ValueType::String),
            _ => None,
        }
    }
}

/// A table description.
#[derive(Debug, PartialEq)]
pub struct TableDesc {
    pub name: String,
    pub version: String,
    pub comment: String,
    pub keywords: TableRecord,
    pub private_keywords: TableRecord,
    pub columns: Vec<ColumnDesc>,
}

/// What a [`TableDesc`] says.
pub struct TableDescModel {
    pub name: Seq<char>,
    pub version: Seq<char>,
    pub comment: Seq<char>,
    pub keywords: RecordModel,
    pub private_keywords: RecordModel,
    pub columns: Seq<ColumnModel>,
}

/// What a list of column descriptors says.
pub open spec fn column_models(s: Seq<ColumnDesc>) -> Seq<ColumnModel> {
    s.map_values(|c: ColumnDesc| c@)
}

impl View for TableDesc {
    type V = TableDescModel;

    open spec fn view(&self) -> TableDescModel {
        TableDescModel {
            name: self.name@,
            version: self.version@,
            comment: self.comment@,
            keywords: self.keywords@,
            private_keywords: self.private_keywords@,
            columns: column_models(self.columns@),
        }
    }
}

impl Clone for TableDesc {
    fn clone(&self) -> (r: TableDesc)
        ensures
            r@ == self@,
    {
        let mut columns: Vec<ColumnDesc> = Vec::new();
        let mut i: usize = 0;
        while i < self.columns.len()
            invariant
                i <= self.columns@.len(),
                columns@.len() == i,
                forall|j: int| 0 <= j < i ==> (#[trigger] columns@[j])@ == self.columns@[j]@,
            decreases self.columns@.len() - i,
        {
            columns.push(self.columns[i].clone());
            i = i + 1;
        }
        assert(column_models(columns@) =~= column_models(self.columns@));
        TableDesc {
            name: self.name.clone(),
            version: self.version.clone(),
            comment: self.comment.clone(),
            keywords: self.keywords.clone(),
            private_keywords: self.private_keywords.clone(),
            columns,
        }
    }
}

/// Column `i` is the first one called `name`.
pub open spec fn is_first_column(cs: Seq<ColumnModel>, name: Seq<char>, i: int) -> bool {
    &&& 0 <= i < cs.len()
    &&& cs[i].name == name
    &&& forall|j: int| 0 <= j < i ==> (#[trigger] cs[j]).name != name
}

/// Some column is called `name`.
pub open spec fn has_column(cs: Seq<ColumnModel>, name: Seq<char>) -> bool {
    exists|i: int| 0 <= i < cs.len() && (#[trigger] cs[i]).name == name
}

/// The position of the first column called `name`.
pub fn column_position(columns: &Vec<ColumnDesc>, name: &str) -> (r: Option<usize>)
    ensures
        match r {
            Some(i) => is_first_column(column_models(columns@), name@, i as int),
            None => !has_column(column_models(columns@), name@),
        },
{
    let ghost cs = column_models(columns@);
    let mut i: usize = 0;
    while i < columns.len()
        invariant
            i <= columns@.len(),
            cs == column_models(columns@),
            forall|j: int| 0 <= j < i ==> (#[trigger] cs[j]).name != name@,
        decreases columns@.len() - i,
    {
        if text_eq(columns[i].name.as_str(), name) {
            assert(cs[i as int].name == name@);
            return Some(i);
        }
        i = i + 1;
    }
    None
}

impl TableDesc {
    /// The first column called `name`.
    pub fn column(&self, name: &str) -> (r: Option<&ColumnDesc>)
        ensures
            match r {
                Some(c) => exists|i: int|
                    #[trigger] is_first_column(self@.columns, name@, i) && c@ == self@.columns[i],
                None => !has_column(self@.columns, name@),
            },
    {
        match column_position(&self.columns, name) {
            Some(i) => {
                assert(is_first_column(self@.columns, name@, i as int));
                Some(&self.columns[i])
            },
            None => None,
        }
    }
}

/// A stream fault as a table description fault.
pub open spec fn lift_io<T>(s: Step<T, AipsIoFault>) -> Step<T, TableDescFault> {
    match s {
        Ok(v) => Ok(v),
        Err((f, c)) => Err((TableDescFault::AipsIo(f), c)),
    }
}

/// A record fault as a table description fault.
pub open spec fn lift_record<T>(s: Step<T, RecordFault>) -> Step<T, TableDescFault> {
    match s {
        Ok(v) => Ok(v),
        Err((f, c)) => Err((TableDescFault::Record(f), c)),
    }
}

fn io<T>(r: Result<T, AipsIoError>) -> (q: Result<T, TableDescError>)
    ensures
        match r {
            Ok(v) => q == Ok::<T, TableDescError>(v),
            Err(e) => q == Err::<T, TableDescError>(TableDescError::AipsIo(e)),
        },
{
    match r {
        Ok(v) => Ok(v),
        Err(e) => Err(TableDescError::AipsIo(e)),
    }
}

fn rec<T>(r: Result<T, RecordError>) -> (q: Result<T, TableDescError>)
    ensures
        match r {
            Ok(v) => q == Ok::<T, TableDescError>(v),
            Err(e) => q == Err::<T, TableDescError>(TableDescError::Record(e)),
        },
{
    match r {
        Ok(v) => Ok(v),
        Err(e) => Err(TableDescError::Record(e)),
    }
}

/// The class of a column descriptor.
pub enum ColumnClass {
    Scalar,
    Record,
    Array,
}

/// The class that a class name stands for.
pub open spec fn class_of(name: Seq<char>) -> Option<ColumnClass> {
    if text::has_prefix(name, "ScalarRecordColumnDesc"@) {
        Some(ColumnClass::Record)
    } else if text::has_prefix(name, "ScalarColumnDesc<"@) {
        Some(ColumnClass::Scalar)
    } else if text::has_prefix(name, "ArrayColumnDesc<"@) {
        Some(ColumnClass::Array)
    } else {
        None
    }
}

fn column_class(name: &str) -> (r: Option<ColumnClass>)
    ensures
        r == class_of(name@),
{
    if starts_with(name, "ScalarRecordColumnDesc") {
        Some(ColumnClass::Record)
    } else if starts_with(name, "ScalarColumnDesc<") {
        Some(ColumnClass::Scalar)
    } else if starts_with(name, "ArrayColumnDesc<") {
        Some(ColumnClass::Array)
    } else {
        None
    }
}

/// The data type of a column: a stream fault if the code is cut off, a record
/// fault if it is unknown.
pub open spec fn column_type_at(c: Cursor) -> Step<DataType, TableDescFault> {
    match lift_io(c.i32()) {
        Err(e) => Err(e),
        Ok((code, c)) => if record::is_type_code(code) {
            Ok((record::type_of_code(code), c))
        } else {
            Err((TableDescFault::Record(RecordFault::UnknownDataType(code)), c))
        },
    }
}

/// The class-specific end of a column descriptor.
#[verifier::opaque]
pub open spec fn kind_at(c: Cursor, class: ColumnClass, dt: DataType) -> Step<
    KindModel,
    TableDescFault,
> {
    match lift_io(c.u32()) {
        Err(e) => Err(e),
        Ok((_, c)) => match class {
            ColumnClass::Record => Ok((KindModel::Record, c)),
            ColumnClass::Scalar => match lift_record(recordio::scalar_at(c, dt)) {
                Err(e) => Err(e),
                Ok((v, c)) => Ok((KindModel::Scalar(v), c)),
            },
            ColumnClass::Array => match lift_io(c.bool()) {
                Err(e) => Err(e),
                Ok((_, c)) => Ok((KindModel::Array, c)),
            },
        },
    }
}

/// The strings that begin the base fields of a column descriptor.
#[verifier::opaque]
pub open spec fn column_texts_at(c: Cursor) -> Step<
    (Seq<char>, Seq<char>, Seq<char>, Seq<char>),
    AipsIoFault,
> {
    match c.u32() {
        Err(e) => Err(e),
        Ok((_, c)) => match c.string() {
            Err(e) => Err(e),
            Ok((name, c)) => match c.string() {
                Err(e) => Err(e),
                Ok((comment, c)) => match c.string() {
                    Err(e) => Err(e),
                    Ok((manager, c)) => match c.string() {
                        Err(e) => Err(e),
                        Ok((group, c)) => Ok(((name, comment, manager, group), c)),
                    },
                },
            },
        },
    }
}

/// The shape of an array column.
pub open spec fn column_shape_at(c: Cursor, class: ColumnClass) -> Step<
    Option<Seq<i64>>,
    AipsIoFault,
> {
    match class {
        ColumnClass::Array => match c.iposition() {
            Err(e) => Err(e),
            Ok((s, c)) => Ok((Some(s), c)),
        },
        _ => Ok((None, c)),
    }
}

/// A column descriptor.
#[verifier::opaque]
pub open spec fn column_at(c: Cursor) -> Step<ColumnModel, TableDescFault> {
    match lift_io(c.u32()) {
        Err(e) => Err(e),
        Ok((_, c)) => match lift_io(c.string()) {
            Err(e) => Err(e),
            Ok((class_name, c)) => match class_of(class_name) {
                None => Err((TableDescFault::UnknownColumnClass(class_name), c)),
                Some(class) => match lift_io(column_texts_at(c)) {
                    Err(e) => Err(e),
                    Ok((t, c)) => column_rest_at(c, class, t),
                },
            },
        },
    }
}

/// The numbers of a column descriptor, from its data type to its maximum
/// length.
pub struct ColumnNumbers {
    pub data_type: DataType,
    pub options: i32,
    pub ndim: i32,
    pub shape: Option<Seq<i64>>,
    pub max_length: i32,
}

#[verifier::opaque]
pub open spec fn column_numbers_at(c: Cursor, class: ColumnClass) -> Step<
    ColumnNumbers,
    TableDescFault,
> {
    match column_type_at(c) {
        Err(e) => Err(e),
        Ok((data_type, c)) => match lift_io(c.i32()) {
            Err(e) => Err(e),
            Ok((options, c)) => match lift_io(c.i32()) {
                Err(e) => Err(e),
                Ok((ndim, c)) => match lift_io(column_shape_at(c, class)) {
                    Err(e) => Err(e),
                    Ok((shape, c)) => match lift_io(c.i32()) {
                        Err(e) => Err(e),
                        Ok((max_length, c)) => Ok(
                            (ColumnNumbers { data_type, options, ndim, shape, max_length }, c),
                        ),
                    },
                },
            },
        },
    }
}

/// A column descriptor from its data type on.
#[verifier::opaque]
pub open spec fn column_rest_at(
    c: Cursor,
    class: ColumnClass,
    t: (Seq<char>, Seq<char>, Seq<char>, Seq<char>),
) -> Step<ColumnModel, TableDescFault> {
    match column_numbers_at(c, class) {
        Err(e) => Err(e),
        Ok((n, c)) => match lift_record(recordio::record_at(c)) {
            Err(e) => Err(e),
            Ok((keywords, c)) => match kind_at(c, class, n.data_type) {
                Err(e) => Err(e),
                Ok((kind, c)) => Ok(
                    (
                        ColumnModel {
                            name: t.0,
                            comment: t.1,
                            data_type: n.data_type,
                            data_manager_type: t.2,
                            data_manager_group: t.3,
                            options: n.options,
                            ndim: n.ndim,
                            shape: n.shape,
                            max_length: n.max_length,
                            keywords,
                            kind,
                        },
                        c,
                    ),
                ),
            },
        },
    }
}

/// `n` column descriptors, appended to `acc`.
pub open spec fn columns_at(c: Cursor, n: nat, acc: Seq<ColumnModel>) -> Step<
    Seq<ColumnModel>,
    TableDescFault,
>
    decreases n,
{
    if n == 0 {
        Ok((acc, c))
    } else {
        match column_at(c) {
            Err(e) => Err(e),
            Ok((m, c)) => columns_at(c, (n - 1) as nat, acc.push(m)),
        }
    }
}

/// A record without fields.
pub open spec fn empty_record_model() -> RecordModel {
    RecordModel {
        desc: DescModel { fields: Seq::empty() },
        record_type: 0,
        values: Seq::empty(),
    }
}

/// A table description. Version 1 has no private keywords.
#[verifier::opaque]
pub open spec fn table_desc_at(c: Cursor) -> Step<TableDescModel, TableDescFault> {
    match lift_io(c.object_start(false)) {
        Err(e) => Err(e),
        Ok((head, c)) => if head.object_type != "TableDesc"@ {
            Err(
                (
                    TableDescFault::UnexpectedType {
                        expected: "TableDesc"@,
                        found: head.object_type,
                    },
                    c,
                ),
            )
        } else {
            match lift_io(c.string()) {
                Err(e) => Err(e),
                Ok((name, c)) => match lift_io(c.string()) {
                    Err(e) => Err(e),
                    Ok((version, c)) => match lift_io(c.string()) {
                        Err(e) => Err(e),
                        Ok((comment, c)) => match lift_record(recordio::record_at(c)) {
                            Err(e) => Err(e),
                            Ok((keywords, c)) => match private_keywords_at(c, head.version) {
                                Err(e) => Err(e),
                                Ok((private_keywords, c)) => match lift_io(c.u32()) {
                                    Err(e) => Err(e),
                                    Ok((n, c)) => match columns_at(c, n as nat, Seq::empty()) {
                                        Err(e) => Err(e),
                                        Ok((columns, c)) => Ok(
                                            (
                                                TableDescModel {
                                                    name,
                                                    version,
                                                    comment,
                                                    keywords,
                                                    private_keywords,
                                                    columns,
                                                },
                                                c,
                                            ),
                                        ),
                                    },
                                },
                            },
                        },
                    },
                },
            }
        },
    }
}

pub open spec fn private_keywords_at(c: Cursor, version: u32) -> Step<RecordModel, TableDescFault> {
    if version != 1 {
        lift_record(recordio::record_at(c))
    } else {
        Ok((empty_record_model(), c))
    }
}

/// A record without fields.
pub fn empty_record() -> (r: TableRecord)
    ensures
        r@ == empty_record_model(),
{
    let r = TableRecord { desc: RecordDesc::default(), record_type: 0, values: Vec::new() };
    assert(r@.desc.fields =~= Seq::empty());
    assert(r@.values =~= Seq::empty());
    r
}

/// Parse a framed `"TableDesc"` object from the stream.
pub fn parse_table_desc(r: &mut Reader<'_>) -> (res: Result<TableDesc, TableDescError>)
    ensures
        aipsio::reads(res, final(r)@, table_desc_at(old(r)@)),
{
    proof {
        reveal(table_desc_at);
    }
    let obj = io(r.read_object_start(false))?;
    if !text_eq(obj.object_type.as_str(), "TableDesc") {
        return Err(
            TableDescError::UnexpectedType {
                expected: "TableDesc".to_owned(),
                found: obj.object_type,
            },
        );
    }
    let name = io(r.read_string())?;
    let version = io(r.read_string())?;
    let comment = io(r.read_string())?;
    let keywords = rec(TableRecord::read(r))?;
    let private_keywords = if obj.version != 1 {
        rec(TableRecord::read(r))?
    } else {
        empty_record()
    };
    let n: u32 = io(r.read_u32())?;
    let mut columns: Vec<ColumnDesc> = Vec::new();
    let mut i: u32 = 0;
    let ghost all = columns_at(r@, n as nat, Seq::empty());
    let ghost whole = table_desc_at(old(r)@);
    assert(column_models(columns@) =~= Seq::<ColumnModel>::empty());
    while i < n
        invariant
            i <= n,
            whole == table_desc_at(old(r)@),
            all == columns_at(r@, (n - i) as nat, column_models(columns@)),
            all matches Err(e) ==> whole == Err::<
                (TableDescModel, Cursor),
                (TableDescFault, Cursor),
            >(e),
        decreases n - i,
    {
        let ghost before = columns@;
        let column = parse_column_desc(r)?;
        columns.push(column);
        assert(column_models(columns@) =~= column_models(before).push(column@));
        i = i + 1;
    }
    Ok(TableDesc { name, version, comment, keywords, private_keywords, columns })
}

fn parse_column_desc(r: &mut Reader<'_>) -> (res: Result<ColumnDesc, TableDescError>)
    ensures
        aipsio::reads(res, final(r)@, column_at(old(r)@)),
{
    proof {
        reveal(column_at);
        reveal(column_rest_at);
        reveal(column_numbers_at);
        reveal(column_texts_at);
        reveal(kind_at);
    }
    let _class_version = io(r.read_u32())?;
    let class_name = io(r.read_string())?;
    let class = match column_class(class_name.as_str()) {
        Some(c) => c,
        None => {
            return Err(TableDescError::UnknownColumnClass(class_name));
        },
    };
    let _base_version = io(r.read_u32())?;
    let name = io(r.read_string())?;
    let comment = io(r.read_string())?;
    let data_manager_type = io(r.read_string())?;
    let data_manager_group = io(r.read_string())?;
    let code = io(r.read_i32())?;
    let data_type = rec(DataType::from_i32(code))?;
    let options = io(r.read_i32())?;
    let ndim = io(r.read_i32())?;
    let shape = match class {
        ColumnClass::Array => Some(io(r.read_iposition())?),
        _ => None,
    };
    let max_length = io(r.read_i32())?;
    let keywords = rec(TableRecord::read(r))?;
    let _kind_version = io(r.read_u32())?;
    let kind = match class {
        ColumnClass::Record => ColumnKind::Record,
        ColumnClass::Scalar => ColumnKind::Scalar(rec(read_scalar_value(r, data_type))?),
        ColumnClass::Array => {
            let _has_default = io(r.read_bool())?;
            ColumnKind::Array
        },
    };
    Ok(
        ColumnDesc {
            name,
            comment,
            data_type,
            data_manager_type,
            data_manager_group,
            options,
            ndim,
            shape,
            max_length,
            keywords,
            kind,
        },
    )
}

/// The eight-character name of a data type in a column class name.
pub open spec fn type_label(dt: DataType) -> Seq<char> {
    match dt {
        DataType::Bool => "Bool    "@,
        DataType::Char => "Char    "@,
        DataType::UChar => "uChar   "@,
        DataType::Short => "Short   "@,
        DataType::UShort => "uShort  "@,
        DataType::Int => "Int     "@,
        DataType::UInt => "uInt    "@,
        DataType::Int64 => "Int64   "@,
        DataType::Float => "float   "@,
        DataType::Double => "double  "@,
        DataType::Complex => "Complex "@,
        DataType::DComplex => "DComplex"@,
        DataType::String => "String  "@,
        _ => "unknown "@,
    }
}

/// The class name of a column descriptor.
pub open spec fn class_name(m: ColumnModel) -> Seq<char> {
    match m.kind {
        KindModel::Scalar(_) => "ScalarColumnDesc<"@ + type_label(m.data_type),
        KindModel::Array => "ArrayColumnDesc<"@ + type_label(m.data_type),
        KindModel::Record => "ScalarRecordColumnDesc"@,
    }
}

/// The shape of an array column, empty where none is set.
pub open spec fn column_shape(m: ColumnModel) -> Seq<i64> {
    match m.shape {
        Some(s) => s,
        None => Seq::empty(),
    }
}

pub open spec fn shape_bytes(big: bool, m: ColumnModel) -> Seq<u8> {
    match m.kind {
        KindModel::Array => recordout::iposition_bytes(big, column_shape(m)),
        _ => Seq::empty(),
    }
}

pub open spec fn kind_bytes(big: bool, m: ColumnModel) -> Seq<u8> {
    match m.kind {
        KindModel::Scalar(v) => recordout::scalar_bytes(big, m.data_type, v),
        KindModel::Array => aipsio::bool_bytes(false),
        KindModel::Record => Seq::empty(),
    }
}

/// A column descriptor whose keywords are written as `keywords`.
#[verifier::opaque]
pub open spec fn column_bytes(big: bool, m: ColumnModel, keywords: Seq<u8>) -> Seq<u8> {
    column_head_bytes(big, m) + column_numbers_bytes(big, m) + keywords + aipsio::u32_bytes(big, 1)
        + kind_bytes(big, m)
}

/// A column descriptor up to its data manager group.
pub open spec fn column_head_bytes(big: bool, m: ColumnModel) -> Seq<u8> {
    aipsio::u32_bytes(big, 1) + aipsio::string_bytes(big, class_name(m)) + aipsio::u32_bytes(big, 1)
        + aipsio::string_bytes(big, m.name) + aipsio::string_bytes(big, m.comment)
        + aipsio::string_bytes(big, m.data_manager_type) + aipsio::string_bytes(
        big,
        m.data_manager_group,
    )
}

/// A column descriptor from its data type to its maximum length.
pub open spec fn column_numbers_bytes(big: bool, m: ColumnModel) -> Seq<u8> {
    aipsio::i32_bytes(big, record::type_code(m.data_type)) + aipsio::i32_bytes(big, m.options)
        + aipsio::i32_bytes(big, m.ndim) + shape_bytes(big, m) + aipsio::i32_bytes(
        big,
        m.max_length,
    )
}

/// A column descriptor, or the reason why its keywords cannot be written.
pub open spec fn column_written(big: bool, m: ColumnModel) -> Result<Seq<u8>, RecordFault> {
    match recordout::record_bytes(big, m.keywords) {
        Ok(keywords) => Ok(column_bytes(big, m, keywords)),
        Err(e) => Err(e),
    }
}

/// The first `n` column descriptors.
pub open spec fn columns_written(big: bool, cs: Seq<ColumnModel>, n: nat) -> Result<
    Seq<u8>,
    RecordFault,
>
    decreases n,
{
    if n == 0 {
        Ok(Seq::empty())
    } else {
        match columns_written(big, cs, (n - 1) as nat) {
            Err(e) => Err(e),
            Ok(b) => match column_written(big, cs[n - 1]) {
                Err(e) => Err(e),
                Ok(x) => Ok(b + x),
            },
        }
    }
}

/// A framed table description, or the reason why it cannot be written.
pub open spec fn table_desc_written(big: bool, m: TableDescModel) -> Result<Seq<u8>, RecordFault> {
    match recordout::record_bytes(big, m.keywords) {
        Err(e) => Err(e),
        Ok(k) => match recordout::record_bytes(big, m.private_keywords) {
            Err(e) => Err(e),
            Ok(p) => match columns_written(big, m.columns, m.columns.len()) {
                Err(e) => Err(e),
                Ok(cols) => Ok(
                    aipsio::object_bytes(
                        big,
                        false,
                        "TableDesc"@,
                        2,
                        table_desc_payload(big, m, k, p, cols),
                    ),
                ),
            },
        },
    }
}

pub open spec fn table_desc_payload(
    big: bool,
    m: TableDescModel,
    k: Seq<u8>,
    p: Seq<u8>,
    cols: Seq<u8>,
) -> Seq<u8> {
    aipsio::string_bytes(big, m.name) + aipsio::string_bytes(big, m.version) + aipsio::string_bytes(
        big,
        m.comment,
    ) + k + p + aipsio::u32_bytes(big, crate::bytes::low32(m.columns.len() as int)) + cols
}

/// The record can be handed to `write_table_record`.
pub open spec fn record_ready(m: RecordModel) -> bool {
    recordout::subs_complete(m.desc.fields) && recordout::floats_ready(m)
}

/// The column's keywords and default value can be written.
pub open spec fn column_ready(m: ColumnModel) -> bool {
    &&& record_ready(m.keywords)
    &&& m.kind matches KindModel::Scalar(v) ==> !recordout::needs_float_cast(m.data_type, v)
}

/// The records and default values of the description can be written.
pub open spec fn table_desc_ready(m: TableDescModel) -> bool {
    &&& record_ready(m.keywords)
    &&& record_ready(m.private_keywords)
    &&& forall|i: int| 0 <= i < m.columns.len() ==> column_ready(#[trigger] m.columns[i])
}

fn push_type_label(out: &mut String, dt: DataType)
    ensures
        final(out)@ == old(out)@ + type_label(dt),
{
    match dt {
        DataType::Bool => out.append("Bool    "),
        DataType::Char => out.append("Char    "),
        DataType::UChar => out.append("uChar   "),
        DataType::Short => out.append("Short   "),
        DataType::UShort => out.append("uShort  "),
        DataType::Int => out.append("Int     "),
        DataType::UInt => out.append("uInt    "),
        DataType::Int64 => out.append("Int64   "),
        DataType::Float => out.append("float   "),
        DataType::Double => out.append("double  "),
        DataType::Complex => out.append("Complex "),
        DataType::DComplex => out.append("DComplex"),
        DataType::String => out.append("String  "),
        _ => out.append("unknown "),
    }
}

fn column_class_name(column: &ColumnDesc) -> (r: String)
    ensures
        r@ == class_name(column@),
{
    match &column.kind {
        ColumnKind::Scalar(_) => {
            let mut s = "ScalarColumnDesc<".to_owned();
            push_type_label(&mut s, column.data_type);
            s
        },
        ColumnKind::Array => {
            let mut s = "ArrayColumnDesc<".to_owned();
            push_type_label(&mut s, column.data_type);
            s
        },
        ColumnKind::Record => "ScalarRecordColumnDesc".to_owned(),
    }
}

fn write_column_head(w: &mut Writer, column: &ColumnDesc)
    ensures
        final(w)@ == old(w)@.put(column_head_bytes(old(w)@.big, column@)),
{
    let ghost s = w@;
    let ghost big = s.big;
    let ghost m = column@;
    let class = column_class_name(column);
    w.put_u32(1);
    w.put_string(class.as_str());
    w.put_u32(1);
    w.put_string(column.name.as_str());
    w.put_string(column.comment.as_str());
    w.put_string(column.data_manager_type.as_str());
    w.put_string(column.data_manager_group.as_str());
    proof {
        let a = aipsio::u32_bytes(big, 1);
        let b = aipsio::string_bytes(big, class_name(m));
        let c = aipsio::u32_bytes(big, 1);
        let d = aipsio::string_bytes(big, m.name);
        let e = aipsio::string_bytes(big, m.comment);
        let f = aipsio::string_bytes(big, m.data_manager_type);
        let g = aipsio::string_bytes(big, m.data_manager_group);
        aipsio::lemma_sheet_put5(s, a, b, c, d, e);
        aipsio::lemma_sheet_put3(s, a + b + c + d + e, f, g);
    }
}

fn write_column_numbers(w: &mut Writer, column: &ColumnDesc)
    ensures
        final(w)@ == old(w)@.put(column_numbers_bytes(old(w)@.big, column@)),
{
    let ghost s = w@;
    let ghost big = s.big;
    let ghost m = column@;
    w.put_i32(data_type_code(column.data_type));
    w.put_i32(column.options);
    w.put_i32(column.ndim);
    let ghost at = w@;
    match &column.kind {
        ColumnKind::Array => match &column.shape {
            Some(shape) => write_iposition(w, shape.as_slice()),
            None => {
                let none: Vec<i64> = Vec::new();
                write_iposition(w, none.as_slice());
            },
        },
        _ => {
            proof {
                aipsio::lemma_sheet_put_nothing(at);
            }
        },
    }
    assert(w@ == at.put(shape_bytes(big, m)));
    w.put_i32(column.max_length);
    proof {
        aipsio::lemma_sheet_put5(
            s,
            aipsio::i32_bytes(big, record::type_code(m.data_type)),
            aipsio::i32_bytes(big, m.options),
            aipsio::i32_bytes(big, m.ndim),
            shape_bytes(big, m),
            aipsio::i32_bytes(big, m.max_length),
        );
    }
}

fn put_column(w: &mut Writer, column: &ColumnDesc) -> (res: Result<(), RecordError>)
    requires
        column_ready(column@),
    ensures
        recordout::written(res, old(w)@, final(w)@, column_written(old(w)@.big, column@)),
{
    let ghost s = w@;
    let ghost big = s.big;
    let ghost m = column@;
    write_column_head(w, column);
    write_column_numbers(w, column);
    write_table_record(w, &column.keywords)?;
    w.put_u32(1);
    let ghost at = w@;
    match &column.kind {
        ColumnKind::Scalar(v) => write_scalar_value(w, column.data_type, v),
        ColumnKind::Array => w.put_bool(false),
        ColumnKind::Record => {
            proof {
                aipsio::lemma_sheet_put_nothing(at);
            }
        },
    }
    assert(w@ == at.put(kind_bytes(big, m)));
    proof {
        reveal(column_bytes);
        aipsio::lemma_sheet_put5(
            s,
            column_head_bytes(big, m),
            column_numbers_bytes(big, m),
            recordout::record_bytes(big, m.keywords)->Ok_0,
            aipsio::u32_bytes(big, 1),
            kind_bytes(big, m),
        );
    }
    Ok(())
}

proof fn lemma_columns_fault(big: bool, cs: Seq<ColumnModel>, i: nat, n: nat)
    requires
        i < n,
        columns_written(big, cs, i) is Ok,
        column_written(big, cs[i as int]) is Err,
    ensures
        columns_written(big, cs, n) == column_written(big, cs[i as int]),
    decreases n,
{
    if n > i + 1 {
        lemma_columns_fault(big, cs, i, (n - 1) as nat);
    }
}

fn put_columns(w: &mut Writer, columns: &Vec<ColumnDesc>) -> (res: Result<(), RecordError>)
    requires
        forall|i: int|
            0 <= i < columns@.len() ==> column_ready(#[trigger] column_models(columns@)[i]),
    ensures
        recordout::written(
            res,
            old(w)@,
            final(w)@,
            columns_written(old(w)@.big, column_models(columns@), columns@.len()),
        ),
{
    let ghost s = w@;
    let ghost big = s.big;
    let ghost cs = column_models(columns@);
    let ghost n = columns@.len();
    let mut i: usize = 0;
    proof {
        aipsio::lemma_sheet_put_nothing(s);
    }
    while i < columns.len()
        invariant
            i <= n,
            n == columns@.len(),
            cs == column_models(columns@),
            s == old(w)@,
            big == s.big,
            forall|i: int| 0 <= i < columns@.len() ==> column_ready(#[trigger] cs[i]),
            columns_written(big, cs, i as nat) is Ok,
            w@ == s.put(columns_written(big, cs, i as nat)->Ok_0),
        decreases n - i,
    {
        let ghost so_far = columns_written(big, cs, i as nat)->Ok_0;
        proof {
            assert(cs[i as int] == columns@[i as int]@);
            if column_written(big, cs[i as int]) is Err {
                lemma_columns_fault(big, cs, i as nat, n);
            }
        }
        put_column(w, &columns[i])?;
        proof {
            aipsio::lemma_sheet_put(s, so_far, column_written(big, cs[i as int])->Ok_0);
        }
        i = i + 1;
    }
    Ok(())
}

fn put_table_desc(w: &mut Writer, desc: &TableDesc) -> (res: Result<(), RecordError>)
    requires
        table_desc_ready(desc@),
    ensures
        recordout::written(res, old(w)@, final(w)@, table_desc_written(old(w)@.big, desc@)),
{
    let ghost start = w@;
    let ghost big = start.big;
    let ghost m = desc@;
    w.put_object_start("TableDesc", 2);
    let ghost s = w@;
    w.put_string(desc.name.as_str());
    w.put_string(desc.version.as_str());
    w.put_string(desc.comment.as_str());
    write_table_record(w, &desc.keywords)?;
    write_table_record(w, &desc.private_keywords)?;
    w.put_u32(crate::bytes::length32(desc.columns.len()));
    put_columns(w, &desc.columns)?;
    w.put_object_end();
    proof {
        let k = recordout::record_bytes(big, m.keywords)->Ok_0;
        let p = recordout::record_bytes(big, m.private_keywords)->Ok_0;
        let cols = columns_written(big, m.columns, m.columns.len())->Ok_0;
        let a = aipsio::string_bytes(big, m.name);
        let b = aipsio::string_bytes(big, m.version);
        let c = aipsio::string_bytes(big, m.comment);
        let n = aipsio::u32_bytes(big, crate::bytes::low32(m.columns.len() as int));
        aipsio::lemma_sheet_put5(s, a, b, c, k, p);
        aipsio::lemma_sheet_put3(s, a + b + c + k + p, n, cols);
        aipsio::lemma_sheet_object(
            start,
            false,
            "TableDesc"@,
            2,
            table_desc_payload(big, m, k, p, cols),
        );
    }
    Ok(())
}

/// Serialize a table description. Where a keyword record cannot be written,
/// the writer stays as it was.
pub fn write_table_desc(w: &mut Writer, desc: &TableDesc) -> (res: Result<(), RecordError>)
    requires
        table_desc_ready(desc@),
    ensures
        recordout::written(res, old(w)@, final(w)@, table_desc_written(old(w)@.big, desc@)),
        res is Err ==> final(w)@ == old(w)@,
{
    let mut inner = if w.is_big_endian() {
        Writer::new()
    } else {
        Writer::new_le()
    };
    put_table_desc(&mut inner, desc)?;
    let b = inner.into_bytes();
    assert(b@ =~= table_desc_written(w@.big, desc@)->Ok_0);
    w.put_raw(b.as_slice());
    Ok(())
}

/// No two data types have the same value type, and the types of arrays,
/// records and tables have none.
pub proof fn law_value_types(a: DataType, b: DataType)
    ensures
        value_type_of(a) is Some && value_type_of(a) == value_type_of(b) ==> a == b,
        value_type_of(a) is Some ==> record::element_of(a) == a && a != DataType::Record && a
            != DataType::Table,
{
}

} // verus!
