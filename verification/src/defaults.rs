//! What stands in a cell that was never written, and how keyword values are
//! stored.
use crate::bytes;
use crate::celllaw;
use crate::paths;
use crate::paths::relativize_one;
use crate::record;
use crate::record::{
    ArrayData, ArrayModel, ArrayValue, DataType, ElementsModel, RecordModel, RecordValue,
    TableRecord, ValueModel,
};
use crate::ssmcell;
use crate::tabledesc;
use crate::tabledesc::{empty_record, ColumnDesc, ColumnKind, ColumnModel, KindModel};
use vstd::prelude::*;

verus! {

/// A dimension, where a negative one counts as zero.
pub open spec fn dim(d: i64) -> int {
    if d < 0 {
        0
    } else {
        d as int
    }
}

/// The product of the first `n` dimensions.
pub open spec fn extent(shape: Seq<i64>, n: nat) -> int
    decreases n,
{
    if n == 0 {
        1
    } else {
        extent(shape, (n - 1) as nat) * dim(shape[n - 1])
    }
}

/// A column's shape with the last dimension first.
pub open spec fn logical_shape(cd: ColumnModel) -> Seq<i64> {
    match cd.shape {
        Some(s) => s.reverse(),
        None => Seq::empty(),
    }
}

/// The elements of a zero-filled array.
pub open spec fn zero_elements(dt: DataType, n: nat) -> ElementsModel {
    match dt {
        DataType::Bool => ElementsModel::Bool(Seq::new(n, |i: int| false)),
        DataType::UChar => ElementsModel::UChar(Seq::new(n, |i: int| 0u8)),
        DataType::UShort => ElementsModel::UShort(Seq::new(n, |i: int| 0u16)),
        DataType::Short => ElementsModel::Short(Seq::new(n, |i: int| 0i16)),
        DataType::Int => ElementsModel::Int(Seq::new(n, |i: int| 0i32)),
        DataType::UInt => ElementsModel::UInt(Seq::new(n, |i: int| 0u32)),
        DataType::Int64 => ElementsModel::Int64(Seq::new(n, |i: int| 0i64)),
        DataType::Float => ElementsModel::Float(Seq::new(n, |i: int| 0u32)),
        DataType::Double => ElementsModel::Double(Seq::new(n, |i: int| 0u64)),
        DataType::Complex => ElementsModel::Complex(Seq::new(n, |i: int| (0u32, 0u32))),
        DataType::DComplex => ElementsModel::DComplex(Seq::new(n, |i: int| (0u64, 0u64))),
        DataType::String => ElementsModel::String(Seq::new(n, |i: int| Seq::<char>::empty())),
        _ => ElementsModel::Double(Seq::empty()),
    }
}

/// The value of an unwritten cell: a scalar column's default, a zero-filled
/// array of an array column's shape (empty where the shape varies), or an
/// empty record.
pub open spec fn default_value(cd: ColumnModel) -> ValueModel {
    match cd.kind {
        KindModel::Scalar(v) => v,
        KindModel::Array => {
            let shape = logical_shape(cd);
            ValueModel::Array(
                ArrayModel {
                    shape: shape.map_values(|d: i64| bytes::low32(dim(d))),
                    data: zero_elements(cd.data_type, extent(shape, shape.len()) as nat),
                },
            )
        },
        KindModel::Record => ValueModel::Record(tabledesc::empty_record_model()),
    }
}

/// The size of a column's default array is a machine integer.
pub open spec fn default_fits(cd: ColumnModel) -> bool {
    cd.kind is Array ==> {
        let shape = logical_shape(cd);
        &&& forall|n: nat| n <= shape.len() ==> #[trigger] extent(shape, n) <= usize::MAX
        &&& forall|i: int| 0 <= i < shape.len() ==> dim(#[trigger] shape[i]) <= usize::MAX
    }
}

fn filled<T: Copy>(v: T, n: usize) -> (r: Vec<T>)
    ensures
        r@ == Seq::new(n as nat, |i: int| v),
{
    let mut out: Vec<T> = Vec::new();
    let mut i: usize = 0;
    while i < n
        invariant
            i <= n,
            out@.len() == i,
            forall|k: int| 0 <= k < i ==> #[trigger] out@[k] == v,
        decreases n - i,
    {
        out.push(v);
        i = i + 1;
    }
    assert(out@ =~= Seq::new(n as nat, |i: int| v));
    out
}

fn empty_texts(n: usize) -> (r: Vec<String>)
    ensures
        record::texts(r@) == Seq::new(n as nat, |i: int| Seq::<char>::empty()),
{
    let mut out: Vec<String> = Vec::new();
    let mut i: usize = 0;
    while i < n
        invariant
            i <= n,
            out@.len() == i,
            forall|k: int| 0 <= k < i ==> (#[trigger] out@[k])@ == Seq::<char>::empty(),
        decreases n - i,
    {
        let s: String = String::new();
        assert(s@ =~= Seq::<char>::empty());
        out.push(s);
        i = i + 1;
    }
    assert(record::texts(out@) =~= Seq::new(n as nat, |i: int| Seq::<char>::empty()));
    out
}

fn zero_data(dt: DataType, n: usize) -> (r: ArrayData)
    ensures
        r@ == zero_elements(dt, n as nat),
{
    match dt {
        DataType::Bool => ArrayData::Bool(filled(false, n)),
        DataType::UChar => ArrayData::UChar(filled(0u8, n)),
        DataType::UShort => ArrayData::UShort(filled(0u16, n)),
        DataType::Short => ArrayData::Short(filled(0i16, n)),
        DataType::Int => ArrayData::Int(filled(0i32, n)),
        DataType::UInt => ArrayData::UInt(filled(0u32, n)),
        DataType::Int64 => ArrayData::Int64(filled(0i64, n)),
        DataType::Float => ArrayData::Float(filled(0u32, n)),
        DataType::Double => ArrayData::Double(filled(0u64, n)),
        DataType::Complex => ArrayData::Complex(filled((0u32, 0u32), n)),
        DataType::DComplex => ArrayData::DComplex(filled((0u64, 0u64), n)),
        DataType::String => ArrayData::String(empty_texts(n)),
        _ => {
            let none: Vec<u64> = Vec::new();
            assert(none@ =~= Seq::<u64>::empty());
            ArrayData::Double(none)
        },
    }
}

/// The value of an unwritten cell of a column. Every column has one.
pub fn default_cell_value(cd: &ColumnDesc) -> (r: Option<RecordValue>)
    requires
        default_fits(cd@),
    ensures
        r matches Some(v) && v@ == default_value(cd@),
{
    match &cd.kind {
        ColumnKind::Scalar(v) => Some(v.clone()),
        ColumnKind::Array => {
            let ghost shape = logical_shape(cd@);
            let len: usize = match &cd.shape {
                Some(s) => s.len(),
                None => 0,
            };
            let mut dims: Vec<u32> = Vec::new();
            let mut n: usize = 1;
            let mut i: usize = 0;
            while i < len
                invariant
                    i <= len,
                    cd@.kind is Array,
                    default_fits(cd@),
                    shape == logical_shape(cd@),
                    len == shape.len(),
                    n == extent(shape, i as nat),
                    dims@.len() == i,
                    forall|k: int|
                        0 <= k < i ==> #[trigger] dims@[k] == bytes::low32(dim(shape[k])),
                decreases len - i,
            {
                let d: i64 = match &cd.shape {
                    Some(s) => s[len - 1 - i],
                    None => 0,
                };
                assert(d == shape[i as int]);
                let e: u64 = if d < 0 {
                    0
                } else {
                    d as u64
                };
                assert(e == dim(shape[i as int]));
                dims.push((e % 0x1_0000_0000) as u32);
                assert(extent(shape, (i + 1) as nat) == n * e);
                assert(extent(shape, (i + 1) as nat) <= usize::MAX);
                let size: usize = e as usize;
                n = n * size;
                i = i + 1;
            }
            assert(dims@ =~= shape.map_values(|d: i64| bytes::low32(dim(d))));
            Some(RecordValue::Array(ArrayValue { shape: dims, data: zero_data(cd.data_type, n) }))
        },
        ColumnKind::Record => Some(RecordValue::Record(empty_record())),
    }
}

/// A value with the absolute names of subtables below or beside the table
/// directory stored as relative ones, also in the records inside it.
pub open spec fn relative_value(v: ValueModel, dir: Seq<char>) -> ValueModel
    decreases v,
{
    match v {
        ValueModel::Table(name) => ValueModel::Table(paths::relative_name(name, dir)),
        ValueModel::Record(r) => ValueModel::Record(relative_record(r, dir)),
        _ => v,
    }
}

/// A record with the values stored so.
pub open spec fn relative_record(r: RecordModel, dir: Seq<char>) -> RecordModel
    decreases r,
{
    RecordModel {
        values: Seq::new(
            r.values.len(),
            |i: int|
                if 0 <= i < r.values.len() {
                    relative_value(r.values[i], dir)
                } else {
                    r.values[i]
                },
        ),
        ..r
    }
}

/// Store the absolute names of subtables relative to the
/// table directory. Names outside the directory's parent are kept.
pub fn relativize_subtables(value: &RecordValue, dir: &str) -> (r: RecordValue)
    ensures
        r@ == relative_value(value@, dir@),
    decreases value,
{
    match value {
        RecordValue::Table(name) => RecordValue::Table(relativize_one(name.as_str(), dir)),
        RecordValue::Record(inner) => RecordValue::Record(relativize_record(inner, dir)),
        other => other.clone(),
    }
}

fn relativize_record(inner: &TableRecord, dir: &str) -> (r: TableRecord)
    ensures
        r@ == relative_record(inner@, dir@),
    decreases inner,
{
    let mut values: Vec<RecordValue> = Vec::new();
    let mut i: usize = 0;
    while i < inner.values.len()
        invariant
            i <= inner.values@.len(),
            values@.len() == i,
            forall|k: int|
                0 <= k < i ==> (#[trigger] values@[k])@ == relative_value(
                    record::value_model(inner.values@[k]),
                    dir@,
                ),
        decreases inner.values@.len() - i,
    {
        values.push(relativize_subtables(&inner.values[i], dir));
        i = i + 1;
    }
    let out = TableRecord { desc: inner.desc.clone(), record_type: inner.record_type, values };
    assert(out@.values =~= relative_record(inner@, dir@).values);
    out
}

/// Every element is the zero of its type: false, the number 0, the bits of
/// 0.0, or the empty text.
pub open spec fn all_zero(e: ElementsModel) -> bool {
    match e {
        ElementsModel::Bool(s) => forall|i: int| 0 <= i < s.len() ==> !#[trigger] s[i],
        ElementsModel::UChar(s) => forall|i: int| 0 <= i < s.len() ==> #[trigger] s[i] == 0,
        ElementsModel::UShort(s) => forall|i: int| 0 <= i < s.len() ==> #[trigger] s[i] == 0,
        ElementsModel::Short(s) => forall|i: int| 0 <= i < s.len() ==> #[trigger] s[i] == 0,
        ElementsModel::Int(s) => forall|i: int| 0 <= i < s.len() ==> #[trigger] s[i] == 0,
        ElementsModel::UInt(s) => forall|i: int| 0 <= i < s.len() ==> #[trigger] s[i] == 0,
        ElementsModel::Int64(s) => forall|i: int| 0 <= i < s.len() ==> #[trigger] s[i] == 0,
        ElementsModel::Float(s) => forall|i: int| 0 <= i < s.len() ==> #[trigger] s[i] == 0,
        ElementsModel::Double(s) => forall|i: int| 0 <= i < s.len() ==> #[trigger] s[i] == 0,
        ElementsModel::Complex(s) => forall|i: int|
            0 <= i < s.len() ==> (#[trigger] s[i]).0 == 0 && s[i].1 == 0,
        ElementsModel::DComplex(s) => forall|i: int|
            0 <= i < s.len() ==> (#[trigger] s[i]).0 == 0 && s[i].1 == 0,
        ElementsModel::String(s) => forall|i: int|
            0 <= i < s.len() ==> (#[trigger] s[i]).len() == 0,
    }
}

/// The elements have the type of a column.
pub open spec fn of_type(dt: DataType, e: ElementsModel) -> bool {
    match dt {
        DataType::Bool => e is Bool,
        DataType::UChar => e is UChar,
        DataType::UShort => e is UShort,
        DataType::Short => e is Short,
        DataType::Int => e is Int,
        DataType::UInt => e is UInt,
        DataType::Int64 => e is Int64,
        DataType::Float => e is Float,
        DataType::Double => e is Double,
        DataType::Complex => e is Complex,
        DataType::DComplex => e is DComplex,
        DataType::String => e is String,
        _ => false,
    }
}

/// A type that array columns have.
pub open spec fn holds_arrays(dt: DataType) -> bool {
    dt == DataType::Bool || dt == DataType::UChar || dt == DataType::UShort || dt
        == DataType::Short || dt == DataType::Int || dt == DataType::UInt || dt == DataType::Int64
        || dt == DataType::Float || dt == DataType::Double || dt == DataType::Complex || dt
        == DataType::DComplex || dt == DataType::String
}

/// The product of dimensions.
proof fn lemma_extent(shape: Seq<i64>, dims: Seq<u32>, n: nat)
    requires
        n <= shape.len() == dims.len(),
        forall|i: int| 0 <= i < shape.len() ==> dims[i] == #[trigger] shape[i],
    ensures
        extent(shape, n) == ssmcell::product(dims.take(n as int)),
        extent(shape, n) >= 0,
    decreases n,
{
    if n == 0 {
        assert(dims.take(0) =~= Seq::<u32>::empty());
    } else {
        lemma_extent(shape, dims, (n - 1) as nat);
        assert(dims.take(n as int).drop_last() =~= dims.take(n - 1));
        assert(extent(shape, n) == extent(shape, (n - 1) as nat) * shape[n - 1]);
        assert(extent(shape, (n - 1) as nat) * shape[n - 1] >= 0) by (nonlinear_arith)
            requires
                extent(shape, (n - 1) as nat) >= 0,
                shape[n - 1] >= 0,
        ;
        assert(dims.take(n as int).last() == shape[n - 1]);
    }
}

/// A cell that was never written, in a column of arrays of one shape: an
/// array of that shape, with the last dimension first, each of whose elements
/// is the zero of the column's type.
pub proof fn law_unwritten_array(cd: ColumnModel)
    requires
        cd.kind is Array,
        holds_arrays(cd.data_type),
        cd.shape matches Some(s) && s.len() > 0 && forall|i: int|
            0 <= i < s.len() ==> 0 <= #[trigger] s[i] <= u32::MAX,
    ensures
        default_value(cd) matches ValueModel::Array(a) && {
            let s = cd.shape->0;
            &&& a.shape.len() == s.len()
            &&& forall|i: int| 0 <= i < s.len() ==> #[trigger] a.shape[i] == s[s.len() - 1 - i]
            &&& of_type(cd.data_type, a.data)
            &&& all_zero(a.data)
            &&& celllaw::element_count(a.data) == ssmcell::product(a.shape)
        },
{
    let s = logical_shape(cd);
    let a = default_value(cd)->Array_0;
    let dims = a.shape;
    assert forall|i: int| 0 <= i < s.len() implies dims[i] == #[trigger] s[i] by {
        assert(s[i] == cd.shape->0[s.len() - 1 - i]);
    }
    lemma_extent(s, dims, s.len());
    assert(dims.take(s.len() as int) =~= dims);
}

/// A cell that was never written, in a column of scalars or of records: the
/// column's default, or a record without fields.
pub proof fn law_unwritten_scalar(cd: ColumnModel, v: ValueModel)
    ensures
        cd.kind == KindModel::Scalar(v) ==> default_value(cd) == v,
        cd.kind is Record ==> (default_value(cd) matches ValueModel::Record(r) && r.values.len()
            == 0 && r.desc.fields.len() == 0),
{
}

/// Storing a keyword keeps every value but the names of subtables, and a
/// subtable named by a clean absolute path is found there again; a record keeps
/// its fields, and each of its values is stored so.
pub proof fn law_stored_keyword(v: ValueModel, dir: Seq<char>)
    requires
        paths::absolute(dir),
        dir.last() != '/',
        paths::no_gaps(dir),
    ensures
        ({
            let r = relative_value(v, dir);
            match v {
                ValueModel::Table(name) => r matches ValueModel::Table(stored) && (paths::absolute(
                    name,
                ) && paths::normalized(name) == name ==> paths::subtable_dir(stored, dir) == name),
                ValueModel::Record(a) => r matches ValueModel::Record(b) && b.desc == a.desc
                    && b.values.len() == a.values.len() && forall|i: int|
                    0 <= i < a.values.len() ==> #[trigger] b.values[i] == relative_value(
                        a.values[i],
                        dir,
                    ),
                _ => r == v,
            }
        }),
{
    if let ValueModel::Table(name) = v {
        if paths::absolute(name) && paths::normalized(name) == name {
            paths::law_subtable_round_trip(name, dir);
        }
    }
}

} // verus!
