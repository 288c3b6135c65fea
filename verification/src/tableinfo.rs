//! What an opened table tells of itself: name, rows, columns, descriptions
//! and keywords.
use crate::dminfo;
use crate::json;
use crate::json::FloatTexts;
use crate::json::FloatModel;
use crate::table;
use crate::table::casa_value_type;
use crate::tabledesc::{ColumnDesc, ColumnKind, ColumnModel};
use crate::tableread::{Table, TableModel};
use crate::text;
use crate::text::{push_i64, push_json_string};
use vstd::prelude::*;

verus! {

/// The dimensions of a shape, the last one first, in decimal.
pub open spec fn logical_dims(shape: Seq<i64>) -> Seq<Seq<char>> {
    dminfo::decimals(shape.reverse())
}

/// What a column description says of its arrays' shape.
pub open spec fn shape_json(m: ColumnModel) -> Seq<char> {
    if !(m.kind is Array) {
        Seq::empty()
    } else {
        let ndim: int = if m.ndim < 0 {
            0
        } else {
            m.ndim as int
        };
        ",\"ndim\":"@ + text::decimal(ndim) + match m.shape {
            Some(s) => if s.len() == 0 {
                Seq::empty()
            } else {
                ",\"shape\":["@ + json::comma_joined(logical_dims(s), s.len())
                    + "],\"_c_order\":true"@
            },
            None => Seq::empty(),
        }
    }
}

/// A column description as a JSON object.
pub open spec fn column_json(m: ColumnModel, path: Seq<char>, t: FloatModel) -> Seq<char> {
    "{\"valueType\":"@ + text::json_text(table::value_type_name(m.data_type))
        + ",\"dataManagerType\":"@ + text::json_text(m.data_manager_type)
        + ",\"dataManagerGroup\":"@ + text::json_text(m.data_manager_group) + ",\"option\":"@
        + text::decimal(m.options as int) + ",\"maxlen\":"@ + text::decimal(m.max_length as int)
        + ",\"comment\":"@ + text::json_text(m.comment) + shape_json(m) + ",\"keywords\":"@
        + json::record_json(m.keywords, Some(path), t) + "}"@
}

/// The entries of a table description's columns.
pub open spec fn column_entries(cols: Seq<ColumnModel>, path: Seq<char>, t: FloatModel) -> Seq<
    Seq<char>,
> {
    cols.map_values(
        |m: ColumnModel| text::json_text(m.name) + ":"@ + column_json(m, path, t),
    )
}

impl TableModel {
    /// The table description as a JSON object.
    pub open spec fn desc_json(self, t: FloatModel) -> Seq<char> {
        let d = self.dat.desc;
        "{"@ + json::comma_joined(column_entries(d.columns, self.path, t), d.columns.len())
            + ",\"_define_hypercolumn_\":{},\"_keywords_\":"@ + json::record_json(
            d.keywords,
            Some(self.path),
            t,
        ) + ",\"_private_keywords_\":"@ + json::record_json(
            d.private_keywords,
            Some(self.path),
            t,
        ) + "}"@
    }
}

fn push_logical_dims(out: &mut String, shape: &Vec<i64>)
    ensures
        final(out)@ == old(out)@ + json::comma_joined(logical_dims(shape@), shape@.len()),
{
    let ghost start = out@;
    let ghost all = logical_dims(shape@);
    let n: usize = shape.len();
    let mut i: usize = 0;
    assert(start + json::comma_joined(all, 0) =~= start);
    while i < n
        invariant
            i <= n,
            n == shape@.len(),
            all == logical_dims(shape@),
            out@ == start + json::comma_joined(all, i as nat),
        decreases n - i,
    {
        if i > 0 {
            out.append(",");
        }
        push_i64(out, shape[n - 1 - i]);
        assert(all[i as int] == text::decimal(shape@[n - 1 - i] as int));
        assert(out@ =~= start + json::comma_joined(all, (i + 1) as nat));
        i = i + 1;
    }
}

fn push_shape(out: &mut String, cd: &ColumnDesc)
    ensures
        final(out)@ == old(out)@ + shape_json(cd@),
{
    match cd.kind {
        ColumnKind::Array => {
            out.append(",\"ndim\":");
            let ndim: i64 = if cd.ndim < 0 {
                0
            } else {
                cd.ndim as i64
            };
            push_i64(out, ndim);
            if let Some(shape) = &cd.shape {
                if shape.len() > 0 {
                    out.append(",\"shape\":[");
                    push_logical_dims(out, shape);
                    out.append("],\"_c_order\":true");
                }
            }
        },
        _ => {},
    }
    assert(out@ =~= old(out)@ + shape_json(cd@));
}

#[verifier::spinoff_prover]
#[verifier::rlimit(40)]
fn push_column(out: &mut String, cd: &ColumnDesc, path: &str, numbers: &FloatTexts)
    ensures
        final(out)@ == old(out)@ + column_json(cd@, path@, numbers@),
{
    out.append("{\"valueType\":");
    push_json_string(out, casa_value_type(cd.data_type));
    out.append(",\"dataManagerType\":");
    push_json_string(out, cd.data_manager_type.as_str());
    out.append(",\"dataManagerGroup\":");
    push_json_string(out, cd.data_manager_group.as_str());
    out.append(",\"option\":");
    push_i64(out, cd.options as i64);
    out.append(",\"maxlen\":");
    push_i64(out, cd.max_length as i64);
    out.append(",\"comment\":");
    push_json_string(out, cd.comment.as_str());
    push_shape(out, cd);
    out.append(",\"keywords\":");
    let keywords = cd.keywords.to_json_string_ctx(Some(path), numbers);
    out.append(keywords.as_str());
    out.append("}");
    assert(out@ =~= old(out)@ + column_json(cd@, path@, numbers@));
}

impl Table {
    /// The table directory.
    pub fn name(&self) -> (r: &str)
        ensures
            r@ == self@.path,
    {
        self.path.as_str()
    }

    /// Whether the table was opened for writing.
    pub fn is_writable(&self) -> (r: bool)
        ensures
            r == self@.writable,
    {
        self.writable
    }

    /// Take the advisory lock.
    pub fn lock(&mut self)
        ensures
            final(self)@ == (TableModel { locked: true, ..old(self)@ }),
    {
        self.locked = true;
    }

    /// Release the advisory lock.
    pub fn unlock(&mut self)
        ensures
            final(self)@ == (TableModel { locked: false, ..old(self)@ }),
    {
        self.locked = false;
    }

    /// Whether the advisory lock is held.
    pub fn is_locked(&self) -> (r: bool)
        ensures
            r == self@.locked,
    {
        self.locked
    }

    /// Flush pending writes. A table is written as a whole when it is
    /// created, so there are none.
    pub fn flush(&mut self)
        ensures
            *final(self) == *old(self),
    {
    }

    /// Close the table, releasing the data managers.
    pub fn close(self) {
    }

    /// The number of rows.
    pub fn nrows(&self) -> (r: u64)
        ensures
            r == self@.dat.header.nrow,
    {
        self.dat.header.nrow
    }

    /// Column names in column order.
    pub fn colnames(&self) -> (r: Vec<String>)
        ensures
            dminfo::texts(r@) == self@.dat.desc.columns.map_values(|c: ColumnModel| c.name),
    {
        let mut out: Vec<String> = Vec::new();
        let mut i: usize = 0;
        while i < self.dat.desc.columns.len()
            invariant
                i <= self.dat.desc.columns@.len(),
                out@.len() == i,
                forall|k: int|
                    0 <= k < i ==> (#[trigger] out@[k])@ == self.dat.desc.columns@[k]@.name,
            decreases self.dat.desc.columns@.len() - i,
        {
            out.push(self.dat.desc.columns[i].name.clone());
            i = i + 1;
        }
        assert(dminfo::texts(out@) =~= self@.dat.desc.columns.map_values(
            |c: ColumnModel| c.name,
        ));
        out
    }

    /// A column description as a JSON object: value type, data manager,
    /// options and comment, for array columns the dimensionality and the
    /// logical shape, then the keywords.
    pub fn getcoldesc(&self, col_idx: usize, numbers: &FloatTexts) -> (r: Option<String>)
        ensures
            match r {
                Some(s) => col_idx < self@.dat.desc.columns.len() && s@ == column_json(
                    self@.dat.desc.columns[col_idx as int],
                    self@.path,
                    numbers@,
                ),
                None => col_idx >= self@.dat.desc.columns.len(),
            },
    {
        if col_idx >= self.dat.desc.columns.len() {
            return None;
        }
        let cd = &self.dat.desc.columns[col_idx];
        let mut s: String = String::new();
        push_column(&mut s, cd, self.path.as_str(), numbers);
        assert(self@.dat.desc.columns[col_idx as int] == cd@);
        assert(s@ =~= column_json(cd@, self@.path, numbers@));
        Some(s)
    }

    /// The full table description as a JSON object: one column description
    /// per column, then the hypercolumns, the keywords and the private
    /// keywords.
    #[verifier::spinoff_prover]
    #[verifier::rlimit(40)]
    pub fn getdesc(&self, numbers: &FloatTexts) -> (r: String)
        ensures
            r@ == self@.desc_json(numbers@),
    {
        let ghost cols = self@.dat.desc.columns;
        let ghost all = column_entries(cols, self@.path, numbers@);
        let mut s: String = String::new();
        s.append("{");
        let ghost start = s@;
        let mut i: usize = 0;
        assert(start + json::comma_joined(all, 0) =~= start);
        while i < self.dat.desc.columns.len()
            invariant
                i <= self.dat.desc.columns@.len(),
                cols == self@.dat.desc.columns,
                all == column_entries(cols, self@.path, numbers@),
                s@ == start + json::comma_joined(all, i as nat),
            decreases self.dat.desc.columns@.len() - i,
        {
            if i > 0 {
                s.append(",");
            }
            let ghost before = s@;
            let cd = &self.dat.desc.columns[i];
            push_json_string(&mut s, cd.name.as_str());
            s.append(":");
            push_column(&mut s, cd, self.path.as_str(), numbers);
            assert(cols[i as int] == cd@);
            assert(s@ =~= before + all[i as int]);
            assert(s@ =~= start + json::comma_joined(all, (i + 1) as nat));
            i = i + 1;
        }
        s.append(",\"_define_hypercolumn_\":{},\"_keywords_\":");
        let keywords = self.dat.desc.keywords.to_json_string_ctx(
            Some(self.path.as_str()),
            numbers,
        );
        s.append(keywords.as_str());
        s.append(",\"_private_keywords_\":");
        let private = self.dat.desc.private_keywords.to_json_string_ctx(
            Some(self.path.as_str()),
            numbers,
        );
        s.append(private.as_str());
        s.append("}");
        assert(s@ =~= self@.desc_json(numbers@));
        s
    }

    /// The table keywords as a JSON object.
    pub fn getkeywords(&self, numbers: &FloatTexts) -> (r: String)
        ensures
            r@ == json::record_json(self@.dat.desc.keywords, Some(self@.path), numbers@),
    {
        self.dat.desc.keywords.to_json_string_ctx(Some(self.path.as_str()), numbers)
    }

    /// A column's keywords as a JSON object.
    pub fn getcolkeywords(&self, col_idx: usize, numbers: &FloatTexts) -> (r: Option<String>)
        ensures
            match r {
                Some(s) => col_idx < self@.dat.desc.columns.len() && s@ == json::record_json(
                    self@.dat.desc.columns[col_idx as int].keywords,
                    Some(self@.path),
                    numbers@,
                ),
                None => col_idx >= self@.dat.desc.columns.len(),
            },
    {
        if col_idx >= self.dat.desc.columns.len() {
            return None;
        }
        let cd = &self.dat.desc.columns[col_idx];
        assert(self@.dat.desc.columns[col_idx as int] == cd@);
        Some(cd.keywords.to_json_string_ctx(Some(self.path.as_str()), numbers))
    }
}

/// The shape of an array column is told with its dimensions in the other order,
/// one behind the other.
pub proof fn law_shape_told(m: ColumnModel, i: int)
    requires
        m.kind is Array,
        m.shape is Some,
        0 <= i < m.shape->0.len(),
    ensures
        ({
            let s = m.shape->0;
            let d = Seq::new(s.len(), |k: int| text::decimal(s[s.len() - 1 - k] as int));
            let head = ",\"ndim\":"@ + text::decimal(
                if m.ndim < 0 {
                    0
                } else {
                    m.ndim as int
                },
            ) + ",\"shape\":["@;
            &&& shape_json(m).subrange(0, head.len() as int) == head
            &&& json::item_shown(shape_json(m), head.len() as int, d, i)
        }),
{
    let s = m.shape->0;
    let d = Seq::new(s.len(), |k: int| text::decimal(s[s.len() - 1 - k] as int));
    let ndim: int = if m.ndim < 0 {
        0
    } else {
        m.ndim as int
    };
    let head = ",\"ndim\":"@ + text::decimal(ndim) + ",\"shape\":["@;
    let tail = "],\"_c_order\":true"@;
    assert(logical_dims(s) =~= d);
    json::lemma_items(head, d, tail, i);
    assert(shape_json(m) =~= head + json::comma_joined(d, d.len()) + tail);
    assert(shape_json(m).subrange(0, head.len() as int) =~= head);
}

/// What is told of a column: the name of its type, its data manager and the
/// manager's group, its options, the length of its strings, its comment, its
/// shape and its keywords.
#[verifier::spinoff_prover]
#[verifier::rlimit(60)]
pub proof fn law_column_told(m: ColumnModel, path: Seq<char>, t: FloatModel)
    ensures
        ({
            let all = column_json(m, path, t);
            &&& dminfo::shown(
                all,
                "\"valueType\":"@ + text::json_text(table::value_type_name(m.data_type)),
            )
            &&& dminfo::shown(all, "\"dataManagerType\":"@ + text::json_text(m.data_manager_type))
            &&& dminfo::shown(all, "\"dataManagerGroup\":"@ + text::json_text(m.data_manager_group))
            &&& dminfo::shown(all, "\"option\":"@ + text::decimal(m.options as int))
            &&& dminfo::shown(all, "\"maxlen\":"@ + text::decimal(m.max_length as int))
            &&& dminfo::shown(all, "\"comment\":"@ + text::json_text(m.comment))
            &&& dminfo::shown(all, shape_json(m))
            &&& dminfo::shown(
                all,
                "\"keywords\":"@ + json::record_json(m.keywords, Some(path), t),
            )
        }),
{
    reveal_strlit("{\"valueType\":");
    reveal_strlit("\"valueType\":");
    reveal_strlit(",\"dataManagerType\":");
    reveal_strlit("\"dataManagerType\":");
    reveal_strlit(",\"dataManagerGroup\":");
    reveal_strlit("\"dataManagerGroup\":");
    reveal_strlit(",\"option\":");
    reveal_strlit("\"option\":");
    reveal_strlit(",\"maxlen\":");
    reveal_strlit("\"maxlen\":");
    reveal_strlit(",\"comment\":");
    reveal_strlit("\"comment\":");
    reveal_strlit(",\"keywords\":");
    reveal_strlit("\"keywords\":");
    assert("{\"valueType\":"@ =~= seq!['{'] + "\"valueType\":"@);
    assert(",\"dataManagerType\":"@ =~= seq![','] + "\"dataManagerType\":"@);
    assert(",\"dataManagerGroup\":"@ =~= seq![','] + "\"dataManagerGroup\":"@);
    assert(",\"option\":"@ =~= seq![','] + "\"option\":"@);
    assert(",\"maxlen\":"@ =~= seq![','] + "\"maxlen\":"@);
    assert(",\"comment\":"@ =~= seq![','] + "\"comment\":"@);
    assert(",\"keywords\":"@ =~= seq![','] + "\"keywords\":"@);
    let all = column_json(m, path, t);
    let open = seq!['{'];
    let comma = seq![','];
    let end = "}"@;
    let s0 = "\"valueType\":"@ + text::json_text(table::value_type_name(m.data_type));
    let s1 = "\"dataManagerType\":"@ + text::json_text(m.data_manager_type);
    let s2 = "\"dataManagerGroup\":"@ + text::json_text(m.data_manager_group);
    let s3 = "\"option\":"@ + text::decimal(m.options as int);
    let s4 = "\"maxlen\":"@ + text::decimal(m.max_length as int);
    let s5 = "\"comment\":"@ + text::json_text(m.comment);
    let s6 = shape_json(m);
    let s7 = "\"keywords\":"@ + json::record_json(m.keywords, Some(path), t);
    let p1 = open + s0 + comma;
    let p2 = p1 + s1 + comma;
    let p3 = p2 + s2 + comma;
    let p4 = p3 + s3 + comma;
    let p5 = p4 + s4 + comma;
    let p6 = p5 + s5;
    let p7 = p6 + s6 + comma;
    let q6 = comma + s7 + end;
    let q5 = s6 + q6;
    let q4 = comma + s5 + q5;
    let q3 = comma + s4 + q4;
    let q2 = comma + s3 + q3;
    let q1 = comma + s2 + q2;
    let q0 = comma + s1 + q1;
    assert(all =~= p7 + s7 + end);
    assert(all =~= open + s0 + q0);
    assert(all =~= p1 + s1 + q1);
    assert(all =~= p2 + s2 + q2);
    assert(all =~= p3 + s3 + q3);
    assert(all =~= p4 + s4 + q4);
    assert(all =~= p5 + s5 + q5);
    assert(all =~= p6 + s6 + q6);
    dminfo::lemma_shown(open, s0, q0);
    dminfo::lemma_shown(p1, s1, q1);
    dminfo::lemma_shown(p2, s2, q2);
    dminfo::lemma_shown(p3, s3, q3);
    dminfo::lemma_shown(p4, s4, q4);
    dminfo::lemma_shown(p5, s5, q5);
    dminfo::lemma_shown(p6, s6, q6);
    dminfo::lemma_shown(p7, s7, end);
}

/// What is told of a table: every column under its name, the keywords and the
/// private keywords.
#[verifier::spinoff_prover]
#[verifier::rlimit(60)]
pub proof fn law_table_told(m: TableModel, t: FloatModel, i: int)
    requires
        0 <= i < m.dat.desc.columns.len(),
    ensures
        ({
            let all = m.desc_json(t);
            let d = m.dat.desc;
            &&& dminfo::shown(
                all,
                text::json_text(d.columns[i].name) + ":"@ + column_json(d.columns[i], m.path, t),
            )
            &&& dminfo::shown(
                all,
                "\"_keywords_\":"@ + json::record_json(d.keywords, Some(m.path), t),
            )
            &&& dminfo::shown(
                all,
                "\"_private_keywords_\":"@ + json::record_json(
                    d.private_keywords,
                    Some(m.path),
                    t,
                ),
            )
        }),
{
    reveal_strlit(",\"_define_hypercolumn_\":{},\"_keywords_\":");
    reveal_strlit(",\"_define_hypercolumn_\":{},");
    reveal_strlit("\"_keywords_\":");
    reveal_strlit(",\"_private_keywords_\":");
    reveal_strlit("\"_private_keywords_\":");
    let mid = ",\"_define_hypercolumn_\":{},"@;
    let comma = seq![','];
    assert(",\"_define_hypercolumn_\":{},\"_keywords_\":"@ =~= mid + "\"_keywords_\":"@);
    assert(",\"_private_keywords_\":"@ =~= comma + "\"_private_keywords_\":"@);
    let d = m.dat.desc;
    let all = m.desc_json(t);
    let entries = column_entries(d.columns, m.path, t);
    let j = json::comma_joined(entries, entries.len());
    let k = "\"_keywords_\":"@ + json::record_json(d.keywords, Some(m.path), t);
    let q = "\"_private_keywords_\":"@ + json::record_json(
        d.private_keywords,
        Some(m.path),
        t,
    );
    let open = "{"@;
    let end = "}"@;
    assert(all =~= open + j + mid + k + comma + q + end);
    assert(all =~= open + j + (mid + k + comma + q + end));
    dminfo::lemma_shown(open, j, mid + k + comma + q + end);
    dminfo::lemma_joined_shown(all, entries, i);
    assert(all =~= open + j + mid + k + (comma + q + end));
    dminfo::lemma_shown(open + j + mid, k, comma + q + end);
    dminfo::lemma_shown(open + j + mid + k + comma, q, end);
}

} // verus!
