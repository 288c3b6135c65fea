//! Records and values as JSON texts.
//!
//! Integers are written in decimal. The text of a floating-point number is
//! not computed here: it is looked up by the number's bit pattern.
use crate::paths;
use crate::paths::resolve_subtable;
use crate::record::{
    ArrayData, ArrayModel, ArrayValue, ElementsModel, RecordModel, RecordValue, TableRecord,
    ValueModel,
};
use crate::record;
use crate::text;
use crate::text::{push_bool, push_i64, push_json_string, push_u64};
use vstd::prelude::*;

verus! {

/// The texts of floating-point numbers, by bit pattern.
#[derive(Debug)]
pub struct FloatTexts {
    pub singles: Vec<(u32, String)>,
    pub doubles: Vec<(u64, String)>,
}

/// What a [`FloatTexts`] says.
pub struct FloatModel {
    pub singles: Seq<(u32, Seq<char>)>,
    pub doubles: Seq<(u64, Seq<char>)>,
}

impl View for FloatTexts {
    type V = FloatModel;

    open spec fn view(&self) -> FloatModel {
        FloatModel {
            singles: self.singles@.map_values(|p: (u32, String)| (p.0, p.1@)),
            doubles: self.doubles@.map_values(|p: (u64, String)| (p.0, p.1@)),
        }
    }
}

/// The text of the first entry for `bits`, or nothing.
pub open spec fn first_text<T>(s: Seq<(T, Seq<char>)>, bits: T, i: int) -> Seq<char>
    decreases s.len() - i,
{
    if i >= s.len() {
        Seq::empty()
    } else if s[i].0 == bits {
        s[i].1
    } else {
        first_text(s, bits, i + 1)
    }
}

impl FloatModel {
    pub open spec fn single(self, bits: u32) -> Seq<char> {
        first_text(self.singles, bits, 0)
    }

    pub open spec fn double(self, bits: u64) -> Seq<char> {
        first_text(self.doubles, bits, 0)
    }

    /// A complex number: its parts in brackets.
    pub open spec fn single_pair(self, re: u32, im: u32) -> Seq<char> {
        "["@ + self.single(re) + ", "@ + self.single(im) + "]"@
    }

    pub open spec fn double_pair(self, re: u64, im: u64) -> Seq<char> {
        "["@ + self.double(re) + ", "@ + self.double(im) + "]"@
    }
}

impl FloatTexts {
    fn push_single(&self, out: &mut String, bits: u32)
        ensures
            final(out)@ == old(out)@ + self@.single(bits),
    {
        let ghost s = self@.singles;
        let mut i: usize = 0;
        while i < self.singles.len()
            invariant
                i <= self.singles@.len(),
                s == self@.singles,
                out@ == old(out)@,
                first_text(s, bits, 0) == first_text(s, bits, i as int),
            decreases self.singles@.len() - i,
        {
            assert(s[i as int] == (self.singles@[i as int].0, self.singles@[i as int].1@));
            if self.singles[i].0 == bits {
                out.append(self.singles[i].1.as_str());
                return;
            }
            i = i + 1;
        }
        assert(out@ =~= old(out)@ + Seq::<char>::empty());
    }

    fn push_double(&self, out: &mut String, bits: u64)
        ensures
            final(out)@ == old(out)@ + self@.double(bits),
    {
        let ghost s = self@.doubles;
        let mut i: usize = 0;
        while i < self.doubles.len()
            invariant
                i <= self.doubles@.len(),
                s == self@.doubles,
                out@ == old(out)@,
                first_text(s, bits, 0) == first_text(s, bits, i as int),
            decreases self.doubles@.len() - i,
        {
            assert(s[i as int] == (self.doubles@[i as int].0, self.doubles@[i as int].1@));
            if self.doubles[i].0 == bits {
                out.append(self.doubles[i].1.as_str());
                return;
            }
            i = i + 1;
        }
        assert(out@ =~= old(out)@ + Seq::<char>::empty());
    }

    fn push_single_pair(&self, out: &mut String, re: u32, im: u32)
        ensures
            final(out)@ == old(out)@ + self@.single_pair(re, im),
    {
        out.append("[");
        self.push_single(out, re);
        out.append(", ");
        self.push_single(out, im);
        out.append("]");
        assert(out@ =~= old(out)@ + self@.single_pair(re, im));
    }

    fn push_double_pair(&self, out: &mut String, re: u64, im: u64)
        ensures
            final(out)@ == old(out)@ + self@.double_pair(re, im),
    {
        out.append("[");
        self.push_double(out, re);
        out.append(", ");
        self.push_double(out, im);
        out.append("]");
        assert(out@ =~= old(out)@ + self@.double_pair(re, im));
    }
}

/// The texts of the elements of an array.
pub open spec fn flat(e: ElementsModel, t: FloatModel) -> Seq<Seq<char>> {
    match e {
        ElementsModel::Bool(s) => s.map_values(|x: bool| text::bool_text(x)),
        ElementsModel::UChar(s) => s.map_values(|x: u8| text::decimal(x as int)),
        ElementsModel::Short(s) => s.map_values(|x: i16| text::decimal(x as int)),
        ElementsModel::UShort(s) => s.map_values(|x: u16| text::decimal(x as int)),
        ElementsModel::Int(s) => s.map_values(|x: i32| text::decimal(x as int)),
        ElementsModel::UInt(s) => s.map_values(|x: u32| text::decimal(x as int)),
        ElementsModel::Int64(s) => s.map_values(|x: i64| text::decimal(x as int)),
        ElementsModel::Float(s) => s.map_values(|x: u32| t.single(x)),
        ElementsModel::Double(s) => s.map_values(|x: u64| t.double(x)),
        ElementsModel::Complex(s) => s.map_values(|x: (u32, u32)| t.single_pair(x.0, x.1)),
        ElementsModel::DComplex(s) => s.map_values(|x: (u64, u64)| t.double_pair(x.0, x.1)),
        ElementsModel::String(s) => s.map_values(|x: Seq<char>| text::json_text(x)),
    }
}

/// The first `n` texts, separated by commas.
pub open spec fn comma_joined(s: Seq<Seq<char>>, n: nat) -> Seq<char>
    decreases n,
{
    if n == 0 {
        Seq::empty()
    } else if n == 1 {
        s[0]
    } else {
        comma_joined(s, (n - 1) as nat) + ","@ + s[n - 1]
    }
}

/// The dimensions of a shape, in decimal.
pub open spec fn dim_texts(shape: Seq<u32>) -> Seq<Seq<char>> {
    shape.map_values(|d: u32| text::decimal(d as int))
}

/// An array as a JSON object of its shape and its elements.
pub open spec fn array_json(a: ArrayModel, t: FloatModel) -> Seq<char> {
    let e = flat(a.data, t);
    "{\"shape\":["@ + comma_joined(dim_texts(a.shape), a.shape.len()) + "],\"array\":["@
        + comma_joined(e, e.len()) + "]}"@
}

/// A value as a JSON fragment. A subtable is named `"Table: "` and its
/// directory where a base directory is given.
pub open spec fn value_json(v: ValueModel, base: Option<Seq<char>>, t: FloatModel) -> Seq<char>
    decreases v, 0nat, 0nat,
{
    match v {
        ValueModel::Bool(b) => text::bool_text(b),
        ValueModel::UChar(x) => text::decimal(x as int),
        ValueModel::Short(x) => text::decimal(x as int),
        ValueModel::UShort(x) => text::decimal(x as int),
        ValueModel::Int(x) => text::decimal(x as int),
        ValueModel::UInt(x) => text::decimal(x as int),
        ValueModel::Int64(x) => text::decimal(x as int),
        ValueModel::Float(x) => t.single(x),
        ValueModel::Double(x) => t.double(x),
        ValueModel::Complex(x, y) => t.single_pair(x, y),
        ValueModel::DComplex(x, y) => t.double_pair(x, y),
        ValueModel::String(s) => text::json_text(s),
        ValueModel::Table(s) => match base {
            Some(b) => text::json_text("Table: "@ + paths::subtable_dir(s, b)),
            None => text::json_text(s),
        },
        ValueModel::Record(r) => record_json(r, base, t),
        ValueModel::Array(a) => array_json(a, t),
    }
}

/// The first `n` fields of a record, separated by commas.
pub open spec fn fields_json(
    m: RecordModel,
    base: Option<Seq<char>>,
    t: FloatModel,
    n: nat,
) -> Seq<char>
    decreases m, 1nat, n,
{
    if n == 0 || n > m.values.len() {
        Seq::empty()
    } else {
        fields_json(m, base, t, (n - 1) as nat) + (if n > 1 {
            ","@
        } else {
            Seq::empty()
        }) + text::json_text(m.desc.fields[n - 1].name) + ":"@ + value_json(
            m.values[n - 1],
            base,
            t,
        )
    }
}

/// The number of fields that have a value.
pub open spec fn valued(m: RecordModel) -> nat {
    if m.desc.fields.len() < m.values.len() {
        m.desc.fields.len()
    } else {
        m.values.len()
    }
}

/// A record as a JSON object in field order.
pub open spec fn record_json(m: RecordModel, base: Option<Seq<char>>, t: FloatModel) -> Seq<char>
    decreases m, 2nat, 0nat,
{
    "{"@ + fields_json(m, base, t, valued(m)) + "}"@
}

pub open spec fn base_text(base: Option<&str>) -> Option<Seq<char>> {
    match base {
        Some(b) => Some(b@),
        None => None,
    }
}

fn new_text() -> (s: String)
    ensures
        s@ == Seq::<char>::empty(),
{
    let s = String::new();
    assert(s@ =~= Seq::<char>::empty());
    s
}

fn push_element(out: &mut String, data: &ArrayData, i: usize, numbers: &FloatTexts)
    requires
        i < flat(data@, numbers@).len(),
    ensures
        final(out)@ == old(out)@ + flat(data@, numbers@)[i as int],
{
    match data {
        ArrayData::Bool(v) => push_bool(out, v[i]),
        ArrayData::UChar(v) => push_u64(out, v[i] as u64),
        ArrayData::Short(v) => push_i64(out, v[i] as i64),
        ArrayData::UShort(v) => push_u64(out, v[i] as u64),
        ArrayData::Int(v) => push_i64(out, v[i] as i64),
        ArrayData::UInt(v) => push_u64(out, v[i] as u64),
        ArrayData::Int64(v) => push_i64(out, v[i]),
        ArrayData::Float(v) => numbers.push_single(out, v[i]),
        ArrayData::Double(v) => numbers.push_double(out, v[i]),
        ArrayData::Complex(v) => numbers.push_single_pair(out, v[i].0, v[i].1),
        ArrayData::DComplex(v) => numbers.push_double_pair(out, v[i].0, v[i].1),
        ArrayData::String(v) => push_json_string(out, v[i].as_str()),
    }
}

fn element_count(data: &ArrayData, numbers: &FloatTexts) -> (n: usize)
    ensures
        n == flat(data@, numbers@).len(),
{
    match data {
        ArrayData::Bool(v) => v.len(),
        ArrayData::UChar(v) => v.len(),
        ArrayData::Short(v) => v.len(),
        ArrayData::UShort(v) => v.len(),
        ArrayData::Int(v) => v.len(),
        ArrayData::UInt(v) => v.len(),
        ArrayData::Int64(v) => v.len(),
        ArrayData::Float(v) => v.len(),
        ArrayData::Double(v) => v.len(),
        ArrayData::Complex(v) => v.len(),
        ArrayData::DComplex(v) => v.len(),
        ArrayData::String(v) => v.len(),
    }
}

/// The flat element JSON fragments of an array.
pub fn array_data_flat(data: &ArrayData, numbers: &FloatTexts) -> (r: Vec<String>)
    ensures
        record::texts(r@) == flat(data@, numbers@),
{
    let n: usize = element_count(data, numbers);
    let ghost all = flat(data@, numbers@);
    let mut out: Vec<String> = Vec::new();
    let mut i: usize = 0;
    while i < n
        invariant
            i <= n,
            all == flat(data@, numbers@),
            n == all.len(),
            out@.len() == i,
            forall|k: int| 0 <= k < i ==> (#[trigger] out@[k])@ == all[k],
        decreases n - i,
    {
        let mut x = new_text();
        push_element(&mut x, data, i, numbers);
        assert(x@ =~= all[i as int]);
        out.push(x);
        i = i + 1;
    }
    assert(record::texts(out@) =~= all);
    out
}

fn push_dims(out: &mut String, shape: &Vec<u32>)
    ensures
        final(out)@ == old(out)@ + comma_joined(dim_texts(shape@), shape@.len()),
{
    let ghost start = out@;
    let ghost all = dim_texts(shape@);
    let mut i: usize = 0;
    assert(start + comma_joined(all, 0) =~= start);
    while i < shape.len()
        invariant
            i <= shape@.len(),
            all == dim_texts(shape@),
            out@ == start + comma_joined(all, i as nat),
        decreases shape@.len() - i,
    {
        if i > 0 {
            out.append(",");
        }
        push_u64(out, shape[i] as u64);
        assert(all[i as int] == text::decimal(shape@[i as int] as int));
        assert(out@ =~= start + comma_joined(all, (i + 1) as nat));
        i = i + 1;
    }
}

fn push_elements(out: &mut String, data: &ArrayData, numbers: &FloatTexts)
    ensures
        final(out)@ == old(out)@ + comma_joined(
            flat(data@, numbers@),
            flat(data@, numbers@).len(),
        ),
{
    let ghost start = out@;
    let ghost all = flat(data@, numbers@);
    let n: usize = element_count(data, numbers);
    let mut i: usize = 0;
    assert(start + comma_joined(all, 0) =~= start);
    while i < n
        invariant
            i <= n,
            all == flat(data@, numbers@),
            n == all.len(),
            out@ == start + comma_joined(all, i as nat),
        decreases n - i,
    {
        if i > 0 {
            out.append(",");
        }
        push_element(out, data, i, numbers);
        assert(out@ =~= start + comma_joined(all, (i + 1) as nat));
        i = i + 1;
    }
}

fn push_array(out: &mut String, a: &ArrayValue, numbers: &FloatTexts)
    ensures
        final(out)@ == old(out)@ + array_json(a@, numbers@),
{
    out.append("{\"shape\":[");
    push_dims(out, &a.shape);
    out.append("],\"array\":[");
    push_elements(out, &a.data, numbers);
    out.append("]}");
    assert(out@ =~= old(out)@ + array_json(a@, numbers@));
}

fn push_value(out: &mut String, v: &RecordValue, base: Option<&str>, numbers: &FloatTexts)
    ensures
        final(out)@ == old(out)@ + value_json(v@, base_text(base), numbers@),
    decreases v, 0nat,
{
    match v {
        RecordValue::Bool(b) => push_bool(out, *b),
        RecordValue::UChar(x) => push_u64(out, *x as u64),
        RecordValue::Short(x) => push_i64(out, *x as i64),
        RecordValue::UShort(x) => push_u64(out, *x as u64),
        RecordValue::Int(x) => push_i64(out, *x as i64),
        RecordValue::UInt(x) => push_u64(out, *x as u64),
        RecordValue::Int64(x) => push_i64(out, *x),
        RecordValue::Float(x) => numbers.push_single(out, *x),
        RecordValue::Double(x) => numbers.push_double(out, *x),
        RecordValue::Complex(x, y) => numbers.push_single_pair(out, *x, *y),
        RecordValue::DComplex(x, y) => numbers.push_double_pair(out, *x, *y),
        RecordValue::String(s) => push_json_string(out, s.as_str()),
        RecordValue::Table(s) => match base {
            Some(b) => {
                let mut t: String = "Table: ".to_owned();
                t.append(resolve_subtable(s.as_str(), b).as_str());
                push_json_string(out, t.as_str());
            },
            None => push_json_string(out, s.as_str()),
        },
        RecordValue::Record(r) => push_record(out, r, base, numbers),
        RecordValue::Array(a) => push_array(out, a, numbers),
    }
}

fn push_record(out: &mut String, r: &TableRecord, base: Option<&str>, numbers: &FloatTexts)
    ensures
        final(out)@ == old(out)@ + record_json(r@, base_text(base), numbers@),
    decreases r, 1nat,
{
    let ghost m = r@;
    let ghost b = base_text(base);
    let ghost t = numbers@;
    out.append("{");
    let ghost start = out@;
    let n: usize = if r.desc.fields.len() < r.values.len() {
        r.desc.fields.len()
    } else {
        r.values.len()
    };
    let mut i: usize = 0;
    assert(start + fields_json(m, b, t, 0) =~= start);
    while i < n
        invariant
            i <= n,
            m == r@,
            b == base_text(base),
            t == numbers@,
            n == valued(m),
            n <= r.desc.fields@.len(),
            n <= r.values@.len(),
            out@ == start + fields_json(m, b, t, i as nat),
        decreases n - i,
    {
        if i > 0 {
            out.append(",");
        }
        assert(m.desc.fields[i as int] == r.desc.fields@[i as int]@);
        assert(m.values[i as int] == r.values@[i as int]@);
        push_json_string(out, r.desc.fields[i].name.as_str());
        out.append(":");
        push_value(out, &r.values[i], base, numbers);
        assert(out@ =~= start + fields_json(m, b, t, (i + 1) as nat));
        i = i + 1;
    }
    out.append("}");
    assert(out@ =~= old(out)@ + record_json(m, b, t));
}

impl RecordValue {
    /// The value as a JSON fragment: bools, integers, floats, strings, nested
    /// records and arrays.
    pub fn to_json_string(&self, numbers: &FloatTexts) -> (r: String)
        ensures
            r@ == value_json(self@, None, numbers@),
    {
        self.to_json_string_ctx(None, numbers)
    }

    /// Like `to_json_string`, but names a subtable `"Table: <directory>"`,
    /// with a relative stored name seen from `base`.
    pub fn to_json_string_ctx(&self, base: Option<&str>, numbers: &FloatTexts) -> (r: String)
        ensures
            r@ == value_json(self@, base_text(base), numbers@),
    {
        let mut out = new_text();
        push_value(&mut out, self, base, numbers);
        assert(out@ =~= value_json(self@, base_text(base), numbers@));
        out
    }
}

impl TableRecord {
    /// The record as a JSON object in field order.
    pub fn to_json_string(&self, numbers: &FloatTexts) -> (r: String)
        ensures
            r@ == record_json(self@, None, numbers@),
    {
        self.to_json_string_ctx(None, numbers)
    }

    /// Like `to_json_string`, but names subtables `"Table: <directory>"`.
    pub fn to_json_string_ctx(&self, base: Option<&str>, numbers: &FloatTexts) -> (r: String)
        ensures
            r@ == record_json(self@, base_text(base), numbers@),
    {
        let mut out = new_text();
        push_record(&mut out, self, base, numbers);
        assert(out@ =~= record_json(self@, base_text(base), numbers@));
        out
    }
}

/// Where text `i` of a list begins: behind those before it, each with the one
/// character that separates it from the next.
pub open spec fn place(s: Seq<Seq<char>>, i: nat) -> nat
    decreases i,
{
    if i == 0 {
        0
    } else {
        place(s, (i - 1) as nat) + s[i - 1].len() + 1
    }
}

/// Text `i` of a list stands at its place behind the first `from` characters
/// of `all`, and a comma behind it where another text follows.
pub open spec fn item_shown(all: Seq<char>, from: int, s: Seq<Seq<char>>, i: int) -> bool {
    let p = from + place(s, i as nat);
    &&& 0 <= p && p + s[i].len() <= all.len()
    &&& all.subrange(p, p + s[i].len()) == s[i]
    &&& i < s.len() - 1 ==> p + s[i].len() < all.len() && all[p + s[i].len()] == ','
}

proof fn lemma_joined_len(s: Seq<Seq<char>>, n: nat)
    requires
        0 < n <= s.len(),
    ensures
        comma_joined(s, n).len() + 1 == place(s, n),
    decreases n,
{
    reveal_strlit(",");
    if n > 1 {
        lemma_joined_len(s, (n - 1) as nat);
    } else {
        assert(place(s, 0) == 0);
    }
}

proof fn lemma_joined(s: Seq<Seq<char>>, n: nat, i: int)
    requires
        0 <= i < n <= s.len(),
    ensures
        place(s, i as nat) + s[i].len() <= comma_joined(s, n).len(),
        comma_joined(s, n).subrange(
            place(s, i as nat) as int,
            (place(s, i as nat) + s[i].len()) as int,
        ) == s[i],
        i < n - 1 ==> place(s, i as nat) + s[i].len() < comma_joined(s, n).len() && comma_joined(
            s,
            n,
        )[(place(s, i as nat) + s[i].len()) as int] == ',',
    decreases n,
{
    reveal_strlit(",");
    assert(","@ =~= seq![',']);
    let all = comma_joined(s, n);
    let p = place(s, i as nat) as int;
    let q = p + s[i].len();
    if n == 1 {
        assert(all.subrange(p, q) =~= s[0]);
    } else {
        let before = comma_joined(s, (n - 1) as nat);
        lemma_joined_len(s, (n - 1) as nat);
        assert(all[before.len() as int] == ',');
        if i < n - 1 {
            lemma_joined(s, (n - 1) as nat, i);
            assert(all.subrange(p, q) =~= before.subrange(p, q));
            if i < n - 2 {
                assert(all[q] == before[q]);
            }
        } else {
            assert(all.subrange(p, q) =~= s[i]);
        }
    }
}

/// A list of texts between two others.
pub proof fn lemma_items(head: Seq<char>, s: Seq<Seq<char>>, tail: Seq<char>, i: int)
    requires
        0 <= i < s.len(),
    ensures
        item_shown(head + comma_joined(s, s.len()) + tail, head.len() as int, s, i),
{
    let j = comma_joined(s, s.len());
    let all = head + j + tail;
    let p = place(s, i as nat) as int;
    let q = p + s[i].len();
    lemma_joined(s, s.len(), i);
    assert(all.subrange(head.len() + p, head.len() + q) =~= j.subrange(p, q));
    if i < s.len() - 1 {
        assert(all[head.len() + q] == j[q]);
    }
}

/// The fields of a record that have a value, each as its name and its value.
pub open spec fn field_texts(m: RecordModel, base: Option<Seq<char>>, t: FloatModel) -> Seq<
    Seq<char>,
> {
    Seq::new(
        valued(m),
        |i: int|
            text::json_text(m.desc.fields[i].name) + seq![':'] + value_json(m.values[i], base, t),
    )
}

proof fn lemma_fields_joined(m: RecordModel, base: Option<Seq<char>>, t: FloatModel, n: nat)
    requires
        n <= valued(m),
    ensures
        fields_json(m, base, t, n) == comma_joined(field_texts(m, base, t), n),
    decreases n,
{
    reveal_strlit(":");
    assert(":"@ =~= seq![':']);
    if n > 0 {
        lemma_fields_joined(m, base, t, (n - 1) as nat);
        assert(fields_json(m, base, t, n) =~= comma_joined(field_texts(m, base, t), n));
    }
}

/// A record is shown in braces, its fields one behind the other in their order,
/// each as its name, a colon and its value, with commas between them.
pub proof fn law_record_shown(m: RecordModel, base: Option<Seq<char>>, t: FloatModel, i: int)
    requires
        0 <= i < valued(m),
    ensures
        ({
            let s = field_texts(m, base, t);
            let all = record_json(m, base, t);
            &&& all.len() == 1 + place(s, s.len())
            &&& all[0] == '{' && all.last() == '}'
            &&& item_shown(all, 1, s, i)
        }),
{
    let s = field_texts(m, base, t);
    lemma_fields_joined(m, base, t, s.len());
    lemma_joined_len(s, s.len());
    reveal_strlit("{");
    reveal_strlit("}");
    lemma_items("{"@, s, "}"@, i);
}

/// An array is shown with its elements in their order, with commas between
/// them, behind its dimensions.
pub proof fn law_array_shown(a: ArrayModel, t: FloatModel, i: int)
    requires
        0 <= i < flat(a.data, t).len(),
        a.shape.len() > 0,
    ensures
        ({
            let d = dim_texts(a.shape);
            let e = flat(a.data, t);
            let head = "{\"shape\":["@;
            let mid = "],\"array\":["@;
            let all = array_json(a, t);
            let from = head.len() + place(d, d.len()) - 1 + mid.len();
            &&& all.len() == from + place(e, e.len()) - 1 + 2
            &&& all.subrange(0, head.len() as int) == head
            &&& forall|k: int| 0 <= k < d.len() ==> #[trigger] item_shown(all, head.len() as int, d, k)
            &&& all.subrange(from - mid.len(), from) == mid
            &&& item_shown(all, from, e, i)
        }),
{
    let d = dim_texts(a.shape);
    let e = flat(a.data, t);
    let head = "{\"shape\":["@;
    let mid = "],\"array\":["@;
    let tail = "]}"@;
    let all = array_json(a, t);
    reveal_strlit("]}");
    lemma_joined_len(d, d.len());
    lemma_joined_len(e, e.len());
    let shape = comma_joined(d, d.len());
    let elements = comma_joined(e, e.len());
    assert(all == head + shape + mid + elements + tail);
    assert(all =~= head + shape + (mid + elements + tail));
    let front = head + shape + mid;
    lemma_items(front, e, tail, i);
    assert(all.subrange(0, head.len() as int) =~= head);
    assert(all.subrange(front.len() - mid.len(), front.len() as int) =~= mid);
    assert forall|k: int| 0 <= k < d.len() implies #[trigger] item_shown(
        all,
        head.len() as int,
        d,
        k,
    ) by {
        lemma_items(head, d, mid + elements + tail, k);
    }
}

} // verus!
