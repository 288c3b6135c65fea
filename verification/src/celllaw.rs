//! What reading gives back of written cells and array records.
use crate::aipsio;
use crate::aipsio::Cursor;
use crate::bytes;
use crate::items;
use crate::record::{ArrayModel, DataType, ElementsModel, ValueModel};
use crate::recordio;
use crate::recordlaw;
use crate::recordout;
use crate::ssm;
use crate::ssm::{SsmFault, SsmModel};
use crate::ssmcell;
use crate::ssmout;
use crate::strings;
use crate::strings::Shelf;
use crate::tablecells;
use crate::tabledesc::ColumnModel;
use crate::text;
use vstd::prelude::*;

verus! {

proof fn lemma_scalar_len(big: bool, dt: DataType, v: ValueModel)
    requires
        recordlaw::scalar_fits(dt, v),
        dt != DataType::String,
    ensures
        recordout::scalar_bytes(big, dt, v).len() == ssmcell::cell_size(dt, 0),
{
    match v {
        ValueModel::Short(x) => bytes::lemma_uint_bytes_len(big, bytes::pattern16(x) as nat, 2),
        ValueModel::UShort(x) => bytes::lemma_uint_bytes_len(big, x as nat, 2),
        ValueModel::Int(x) => bytes::lemma_uint_bytes_len(big, bytes::pattern32(x) as nat, 4),
        ValueModel::UInt(x) => bytes::lemma_uint_bytes_len(big, x as nat, 4),
        ValueModel::Int64(x) => bytes::lemma_uint_bytes_len(big, bytes::pattern64(x) as nat, 8),
        ValueModel::Float(x) => bytes::lemma_uint_bytes_len(big, x as nat, 4),
        ValueModel::Double(x) => bytes::lemma_uint_bytes_len(big, x as nat, 8),
        ValueModel::Complex(x, y) => {
            bytes::lemma_uint_bytes_len(big, x as nat, 4);
            bytes::lemma_uint_bytes_len(big, y as nat, 4);
        },
        ValueModel::DComplex(x, y) => {
            bytes::lemma_uint_bytes_len(big, x as nat, 8);
            bytes::lemma_uint_bytes_len(big, y as nat, 8);
        },
        _ => {},
    }
}

/// A written scalar cell is decoded to the value that was written.
pub proof fn law_scalar_cell_round_trip(big: bool, desc: ColumnModel, v: ValueModel)
    requires
        recordlaw::scalar_fits(desc.data_type, v),
        desc.data_type != DataType::String,
    ensures
        ssmout::scalar_cell(big, desc.data_type, desc.max_length, v) matches Ok(cell)
            && ssmcell::decoded(cell, desc, big) == Ok::<ValueModel, SsmFault>(v),
{
    let dt = desc.data_type;
    let b = recordout::scalar_bytes(big, dt, v);
    lemma_scalar_len(big, dt, v);
    let cell = ssmout::scalar_cell(big, dt, desc.max_length, v)->Ok_0;
    assert(cell =~= b);
    let c = Cursor { data: cell, big, pos: 0 };
    assert(cell.subrange(0, cell.len() as int) =~= cell);
    recordlaw::law_scalar_round_trip(c, dt, v);
}

/// The bytes of a text as they are decoded again.
proof fn lemma_text_decoded(s: Seq<char>)
    ensures
        text::lossy(text::text_bytes(s)) == s,
{
    text::law_text_round_trip(s);
}

/// A string of at most eight bytes is read back from its cell.
pub proof fn law_short_string_round_trip(m: SsmModel, desc: ColumnModel, s: Seq<char>)
    requires
        desc.data_type == DataType::String,
        desc.max_length <= 0,
        text::text_bytes(s).len() <= 8,
    ensures
        ssmout::scalar_cell(
            m.header.big_endian,
            DataType::String,
            desc.max_length,
            ValueModel::String(s),
        ) matches Ok(cell) && m.string_value(cell) == Ok::<ValueModel, SsmFault>(
            ValueModel::String(s),
        ) && ssmcell::decoded(cell, desc, m.header.big_endian) == Ok::<ValueModel, SsmFault>(
            ValueModel::String(s),
        ),
{
    let big = m.header.big_endian;
    let b = text::text_bytes(s);
    let n = b.len() as i32;
    let cell = ssmout::short_cell(big, b);
    let tail = aipsio::i32_bytes(big, n);
    bytes::lemma_spans();
    bytes::lemma_uint_bytes_len(big, bytes::pattern32(n) as nat, 4);
    bytes::law_uint_round_trip(big, bytes::pattern32(n) as nat, 4);
    assert(cell.subrange(8, 12) =~= tail);
    assert(cell.subrange(0, n as int) =~= b);
    lemma_text_decoded(s);
}

proof fn lemma_nul(b: Seq<u8>, cell: Seq<u8>, k: int)
    requires
        b.len() <= cell.len(),
        cell == bytes::resized(b, cell.len()),
        forall|i: int| 0 <= i < b.len() ==> b[i] != 0,
        0 <= k <= b.len(),
    ensures
        ssmcell::nul_from(cell, k) == b.len(),
    decreases b.len() - k,
{
    if k < b.len() {
        assert(cell[k] == b[k]);
        lemma_nul(b, cell, k + 1);
    }
}

/// A string without NULs that fits a fixed-length column is read back.
pub proof fn law_fixed_string_round_trip(big: bool, desc: ColumnModel, s: Seq<char>)
    requires
        desc.data_type == DataType::String,
        0 < desc.max_length,
        text::text_bytes(s).len() <= desc.max_length,
        forall|i: int|
            0 <= i < text::text_bytes(s).len() ==> #[trigger] text::text_bytes(s)[i] != 0,
    ensures
        ssmout::scalar_cell(
            big,
            DataType::String,
            desc.max_length,
            ValueModel::String(s),
        ) matches Ok(cell) && ssmcell::decoded(cell, desc, big) == Ok::<ValueModel, SsmFault>(
            ValueModel::String(s),
        ),
{
    let b = text::text_bytes(s);
    let cell = bytes::resized(b, desc.max_length as nat);
    lemma_nul(b, cell, 0);
    assert(ssmcell::until_nul(cell) =~= b);
    lemma_text_decoded(s);
}

/// The cell of a string in the string buckets: a reference to it.
pub open spec fn ref_cell(big: bool, place: (i32, u32), len: int) -> Seq<u8> {
    aipsio::i32_bytes(big, place.0) + aipsio::u32_bytes(big, place.1) + aipsio::i32_bytes(
        big,
        bytes::signed32(bytes::low32(len)),
    )
}

/// A string in the string buckets is read back through its cell.
#[verifier::rlimit(40)]
pub proof fn law_long_string_round_trip(
    m: SsmModel,
    shelf: Shelf,
    k: int,
    offset: int,
    s: Seq<char>,
)
    requires
        strings::shelved(m, shelf),
        shelf.sound(),
        strings::stands(shelf, k, offset, text::text_bytes(s)),
        8 < text::text_bytes(s).len() <= i32::MAX,
    ensures
        m.string_value(
            ref_cell(
                m.header.big_endian,
                ((shelf.first + k) as i32, offset as u32),
                text::text_bytes(s).len() as int,
            ),
        ) == Ok::<ValueModel, SsmFault>(ValueModel::String(s)),
{
    let big = m.header.big_endian;
    let b = text::text_bytes(s);
    let number = (shelf.first + k) as i32;
    let at = offset as u32;
    let len = b.len() as i32;
    let cell = ref_cell(big, (number, at), b.len() as int);
    assert(shelf.buckets[k].data.len() <= shelf.size - 16);
    bytes::lemma_spans();
    bytes::lemma_uint_bytes_len(big, bytes::pattern32(number) as nat, 4);
    bytes::lemma_uint_bytes_len(big, at as nat, 4);
    bytes::lemma_uint_bytes_len(big, bytes::pattern32(len) as nat, 4);
    bytes::law_uint_round_trip(big, bytes::pattern32(number) as nat, 4);
    bytes::law_uint_round_trip(big, at as nat, 4);
    bytes::law_uint_round_trip(big, bytes::pattern32(len) as nat, 4);
    assert(cell.subrange(0, 4) =~= aipsio::i32_bytes(big, number));
    assert(cell.subrange(4, 8) =~= aipsio::u32_bytes(big, at));
    assert(cell.subrange(8, 12) =~= aipsio::i32_bytes(big, len));
    strings::law_string_read_back(m, shelf, k, offset, b, len as u32);
    lemma_text_decoded(s);
}

/// The elements are of the given type.
pub open spec fn elements_fit(elem: DataType, e: ElementsModel) -> bool {
    match elem {
        DataType::Bool => e is Bool,
        DataType::Char | DataType::UChar => e is UChar,
        DataType::Short => e is Short,
        DataType::UShort => e is UShort,
        DataType::Int => e is Int,
        DataType::UInt => e is UInt,
        DataType::Int64 => e is Int64,
        DataType::Float => e is Float,
        DataType::Double => e is Double,
        DataType::Complex => e is Complex,
        DataType::DComplex => e is DComplex,
        _ => false,
    }
}

/// The number of elements.
pub open spec fn element_count(e: ElementsModel) -> nat {
    match e {
        ElementsModel::Bool(s) => s.len(),
        ElementsModel::UChar(s) => s.len(),
        ElementsModel::Short(s) => s.len(),
        ElementsModel::UShort(s) => s.len(),
        ElementsModel::Int(s) => s.len(),
        ElementsModel::UInt(s) => s.len(),
        ElementsModel::Int64(s) => s.len(),
        ElementsModel::Float(s) => s.len(),
        ElementsModel::Double(s) => s.len(),
        ElementsModel::Complex(s) => s.len(),
        ElementsModel::DComplex(s) => s.len(),
        ElementsModel::String(s) => s.len(),
    }
}

proof fn lemma_byte_items(big: bool, s: Seq<u8>, n: nat)
    requires
        n <= s.len(),
    ensures
        items::items_bytes::<u8>(big, s, n) == s.take(n as int),
    decreases n,
{
    if n > 0 {
        lemma_byte_items(big, s, (n - 1) as nat);
        assert(s.take(n as int) =~= s.take(n - 1) + seq![s[n - 1]]);
        assert(aipsio::u8_bytes(s[n - 1]) =~= seq![s[n - 1]]);
    } else {
        assert(s.take(0) =~= Seq::<u8>::empty());
    }
}

/// The elements take the bytes of an array of their number.
pub proof fn lemma_elements_len(big: bool, elem: DataType, e: ElementsModel)
    requires
        elements_fit(elem, e),
    ensures
        ssmout::elements_bytes(big, e).len() == ssmcell::array_bytes(elem, element_count(e)),
{
    match e {
        ElementsModel::Bool(s) => {},
        ElementsModel::UChar(s) => items::lemma_items_len::<u8>(big, s, s.len()),
        ElementsModel::Short(s) => items::lemma_items_len::<i16>(big, s, s.len()),
        ElementsModel::UShort(s) => items::lemma_items_len::<u16>(big, s, s.len()),
        ElementsModel::Int(s) => items::lemma_items_len::<i32>(big, s, s.len()),
        ElementsModel::UInt(s) => items::lemma_items_len::<u32>(big, s, s.len()),
        ElementsModel::Int64(s) => items::lemma_items_len::<i64>(big, s, s.len()),
        ElementsModel::Float(s) => items::lemma_items_len::<u32>(big, s, s.len()),
        ElementsModel::Double(s) => items::lemma_items_len::<u64>(big, s, s.len()),
        ElementsModel::Complex(s) => items::lemma_items_len::<(u32, u32)>(big, s, s.len()),
        ElementsModel::DComplex(s) => items::lemma_items_len::<(u64, u64)>(big, s, s.len()),
        ElementsModel::String(s) => {},
    }
}

/// Written elements are read back.
pub proof fn law_elements_round_trip(c: Cursor, elem: DataType, e: ElementsModel)
    requires
        0 <= c.pos,
        elements_fit(elem, e),
        c.holds(ssmout::elements_bytes(c.big, e)),
    ensures
        recordio::array_elements_at(c, elem, element_count(e)) matches Ok((x, _)) && x == e,
{
    match e {
        ElementsModel::Bool(s) => {
            let p = bytes::packed(s);
            lemma_byte_items(c.big, p, p.len());
            assert(p.take(p.len() as int) =~= p);
            items::law_items_round_trip::<u8>(c, p);
            bytes::law_packed_round_trip(s);
        },
        ElementsModel::UChar(s) => items::law_items_round_trip::<u8>(c, s),
        ElementsModel::Short(s) => items::law_items_round_trip::<i16>(c, s),
        ElementsModel::UShort(s) => items::law_items_round_trip::<u16>(c, s),
        ElementsModel::Int(s) => items::law_items_round_trip::<i32>(c, s),
        ElementsModel::UInt(s) => items::law_items_round_trip::<u32>(c, s),
        ElementsModel::Int64(s) => items::law_items_round_trip::<i64>(c, s),
        ElementsModel::Float(s) => items::law_items_round_trip::<u32>(c, s),
        ElementsModel::Double(s) => items::law_items_round_trip::<u64>(c, s),
        ElementsModel::Complex(s) => items::law_items_round_trip::<(u32, u32)>(c, s),
        ElementsModel::DComplex(s) => items::law_items_round_trip::<(u64, u64)>(c, s),
        ElementsModel::String(s) => {},
    }
}

/// A 32-bit integer that stands at a place is found there.
pub proof fn lemma_u32_in(data: Seq<u8>, p: int, big: bool, v: u32)
    requires
        0 <= p,
        (Cursor { data, big, pos: p }).holds(aipsio::u32_bytes(big, v)),
    ensures
        ssm::u32_in(data, p, big) == Ok::<u32, SsmFault>(v),
{
    bytes::lemma_spans();
    bytes::lemma_uint_bytes_len(big, v as nat, 4);
    bytes::law_uint_round_trip(big, v as nat, 4);
}

pub proof fn lemma_dims(data: Seq<u8>, p: int, big: bool, s: Seq<u32>, k: nat, acc: Seq<u32>)
    requires
        0 <= p,
        k <= s.len(),
        (Cursor { data, big, pos: p }).holds(items::items_rest::<u32>(big, s, k)),
    ensures
        ssmcell::dims_in(data, p, (s.len() - k) as nat, big, acc) == Ok::<Seq<u32>, SsmFault>(
            acc + s.subrange(k as int, s.len() as int),
        ),
    decreases s.len() - k,
{
    let n = s.len();
    let c = Cursor { data, big, pos: p };
    if k == n {
        assert(acc + s.subrange(k as int, n as int) =~= acc);
    } else {
        let v = s[k as int];
        let b = aipsio::u32_bytes(big, v);
        bytes::lemma_uint_bytes_len(big, v as nat, 4);
        aipsio::lemma_holds_concat(c, b, items::items_rest::<u32>(big, s, k + 1));
        lemma_u32_in(data, p, big, v);
        assert(c.skip(4) == Cursor { data, big, pos: p + 4 });
        lemma_dims(data, p + 4, big, s, k + 1, acc.push(v));
        assert(acc.push(v) + s.subrange(k as int + 1, n as int) =~= acc + s.subrange(
            k as int,
            n as int,
        ));
    }
}

/// An array whose record can be read back.
pub open spec fn array_storable(elem: DataType, a: ArrayModel) -> bool {
    &&& elements_fit(elem, a.data)
    &&& a.shape.len() <= u32::MAX
    &&& element_count(a.data) == ssmcell::product(a.shape)
    &&& element_count(a.data) <= usize::MAX
}

/// The bytes before an array record: a reference count, in a file whose
/// version is not zero.
pub open spec fn count_len(version: u32) -> int {
    if version > 0 {
        4
    } else {
        0
    }
}

/// A written array record is read back from an array index file.
#[verifier::spinoff_prover]
#[verifier::rlimit(60)]
pub proof fn law_array_record_round_trip(
    f0i: Seq<u8>,
    big: bool,
    version: u32,
    at: i64,
    elem: DataType,
    a: ArrayModel,
)
    requires
        0 < at,
        ssm::u32_in(f0i, 0, big) == Ok::<u32, SsmFault>(version),
        array_storable(elem, a),
        (Cursor { data: f0i, big, pos: at + count_len(version) }).holds(
            ssmout::array_bytes(big, a),
        ),
    ensures
        ssmcell::array_record(f0i, big, at, elem) == Ok::<ArrayModel, SsmFault>(a),
{
    let start = at + count_len(version);
    let c = Cursor { data: f0i, big, pos: start };
    let dims = a.shape.reverse();
    tablecells::lemma_product_reverse(a.shape);
    let n = bytes::low32(a.shape.len() as int);
    let x = aipsio::u32_bytes(big, n);
    let y = items::items_bytes::<u32>(big, dims, dims.len());
    let z = ssmout::elements_bytes(big, a.data);
    bytes::lemma_uint_bytes_len(big, n as nat, 4);
    items::lemma_items_len::<u32>(big, dims, dims.len());
    aipsio::lemma_holds_concat(c, x + y, z);
    aipsio::lemma_holds_concat(c, x, y);
    lemma_u32_in(f0i, start, big, n);
    let p = start + 4;
    assert(c.skip(4) == Cursor { data: f0i, big, pos: p });
    items::lemma_items_split::<u32>(big, dims, 0);
    assert(y =~= items::items_rest::<u32>(big, dims, 0));
    lemma_dims(f0i, p, big, dims, 0, Seq::empty());
    assert(Seq::<u32>::empty() + dims.subrange(0, dims.len() as int) =~= dims);
    lemma_elements_len(big, elem, a.data);
    let q = p + 4 * n;
    let end = q + z.len();
    let d = Cursor { data: f0i.subrange(q, end), big, pos: 0 };
    assert(c.skip((x + y).len() as int) == Cursor { data: f0i, big, pos: q });
    assert(d.data =~= z);
    assert(d.data.subrange(0, z.len() as int) =~= z);
    law_elements_round_trip(d, elem, a.data);
    assert(dims.reverse() =~= a.shape);
}

} // verus!
