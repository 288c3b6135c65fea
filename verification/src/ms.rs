//! Measurement Sets: the main table with the links to its standard
//! subtables, and the subtables.
use crate::defaults;
use crate::json;
use crate::json::FloatTexts;
use crate::paths;
use crate::record;
use crate::record::{RecordModel, RecordValue, ValueModel};
use crate::ssmdata;
use crate::ssmdata::CellContent;
use crate::tablecreate;
use crate::tablecreate::{TableFiles, TiledImage};
use crate::tabledesc;
use crate::tabledesc::{
    column_position, empty_record, ColumnDesc, ColumnModel, TableDesc, TableDescModel,
};
use crate::text;
use crate::text::{starts_with, text_eq};
use crate::writetable::{WritableTable, WriteFault, WriteTableError};
use vstd::prelude::*;

verus! {

/// The standard subtable `i` of a Measurement Set.
pub open spec fn standard(i: int) -> Option<Seq<char>> {
    if i == 0 {
        Some("ANTENNA"@)
    } else if i == 1 {
        Some("DATA_DESCRIPTION"@)
    } else if i == 2 {
        Some("FEED"@)
    } else if i == 3 {
        Some("FIELD"@)
    } else if i == 4 {
        Some("FLAG_CMD"@)
    } else if i == 5 {
        Some("HISTORY"@)
    } else if i == 6 {
        Some("OBSERVATION"@)
    } else if i == 7 {
        Some("POINTING"@)
    } else if i == 8 {
        Some("POLARIZATION"@)
    } else if i == 9 {
        Some("PROCESSOR"@)
    } else if i == 10 {
        Some("SPECTRAL_WINDOW"@)
    } else if i == 11 {
        Some("STATE"@)
    } else {
        None
    }
}

/// The number of standard subtables.
pub const STANDARD_SUBTABLES: usize = 12;

/// The standard subtable `i`, which a Measurement Set is created with.
pub fn standard_subtable(i: usize) -> (r: Option<&'static str>)
    ensures
        match standard(i as int) {
            Some(s) => r is Some && r->0@ == s && i < STANDARD_SUBTABLES,
            None => r is None && i >= STANDARD_SUBTABLES,
        },
{
    match i {
        0 => Some("ANTENNA"),
        1 => Some("DATA_DESCRIPTION"),
        2 => Some("FEED"),
        3 => Some("FIELD"),
        4 => Some("FLAG_CMD"),
        5 => Some("HISTORY"),
        6 => Some("OBSERVATION"),
        7 => Some("POINTING"),
        8 => Some("POLARIZATION"),
        9 => Some("PROCESSOR"),
        10 => Some("SPECTRAL_WINDOW"),
        11 => Some("STATE"),
        _ => None,
    }
}

/// Errors from building Measurement Sets.
#[derive(Debug)]
pub enum MsError {
    UnknownSubtable(String),
    BadSchema(String),
    Create(WriteTableError),
}

/// What a [`MsError`] says.
pub enum MsFault {
    UnknownSubtable(Seq<char>),
    BadSchema(Seq<char>),
    Create(WriteFault),
}

impl View for MsError {
    type V = MsFault;

    open spec fn view(&self) -> MsFault {
        match *self {
            MsError::UnknownSubtable(s) => MsFault::UnknownSubtable(s@),
            MsError::BadSchema(s) => MsFault::BadSchema(s@),
            MsError::Create(e) => MsFault::Create(e@),
        }
    }
}

/// The description of a table of a Measurement Set: its required or its
/// complete columns.
#[derive(Debug)]
pub struct Schema {
    pub table: String,
    pub complete: bool,
    pub desc: TableDesc,
}

/// What a [`Schema`] says.
pub struct SchemaModel {
    pub table: Seq<char>,
    pub complete: bool,
    pub desc: TableDescModel,
}

impl View for Schema {
    type V = SchemaModel;

    open spec fn view(&self) -> SchemaModel {
        SchemaModel { table: self.table@, complete: self.complete, desc: self.desc@ }
    }
}

pub open spec fn schema_models(s: Seq<Schema>) -> Seq<SchemaModel> {
    s.map_values(|x: Schema| x@)
}

/// The first description, from `i` on, of a table.
pub open spec fn schema_of(s: Seq<SchemaModel>, table: Seq<char>, complete: bool, i: int) -> Option<
    TableDescModel,
>
    decreases s.len() - i,
{
    if i < 0 || i >= s.len() {
        None
    } else if s[i].table == table && s[i].complete == complete {
        Some(s[i].desc)
    } else {
        schema_of(s, table, complete, i + 1)
    }
}

/// The name of the table that is asked for: the main one where none is named.
pub open spec fn table_name(table: Option<&str>) -> Seq<char> {
    match table {
        Some(t) => t@,
        None => "MS"@,
    }
}

fn schema_desc(schemas: &[Schema], table: &str, complete: bool) -> (res: Result<TableDesc, MsError>)
    ensures
        match schema_of(schema_models(schemas@), table@, complete, 0) {
            Some(d) => res is Ok && res->Ok_0@ == d,
            None => res is Err && res->Err_0@ == MsFault::BadSchema(table@),
        },
{
    let ghost ms = schema_models(schemas@);
    let mut i: usize = 0;
    while i < schemas.len()
        invariant
            i <= schemas@.len(),
            ms == schema_models(schemas@),
            schema_of(ms, table@, complete, 0) == schema_of(ms, table@, complete, i as int),
        decreases schemas@.len() - i,
    {
        assert(ms[i as int] == schemas@[i as int]@);
        if text_eq(schemas[i].table.as_str(), table) && schemas[i].complete == complete {
            return Ok(schemas[i].desc.clone());
        }
        i = i + 1;
    }
    Err(MsError::BadSchema(table.to_owned()))
}

/// The required columns of the main table, or of a subtable.
pub fn required_ms_desc(schemas: &[Schema], table: Option<&str>) -> (res: Result<
    TableDesc,
    MsError,
>)
    ensures
        match schema_of(schema_models(schemas@), table_name(table), false, 0) {
            Some(d) => res is Ok && res->Ok_0@ == d,
            None => res is Err && res->Err_0@ == MsFault::BadSchema(table_name(table)),
        },
{
    match table {
        Some(t) => schema_desc(schemas, t, false),
        None => schema_desc(schemas, "MS", false),
    }
}

/// The complete columns of the main table, or of a subtable.
pub fn complete_ms_desc(schemas: &[Schema], table: Option<&str>) -> (res: Result<
    TableDesc,
    MsError,
>)
    ensures
        match schema_of(schema_models(schemas@), table_name(table), true, 0) {
            Some(d) => res is Ok && res->Ok_0@ == d,
            None => res is Err && res->Err_0@ == MsFault::BadSchema(table_name(table)),
        },
{
    match table {
        Some(t) => schema_desc(schemas, t, true),
        None => schema_desc(schemas, "MS", true),
    }
}

/// Whether an entry of a description is no column.
pub open spec fn is_note(name: Seq<char>) -> bool {
    text::has_prefix(name, "_"@)
}

/// The place, from `i` on, of the first column of a name.
pub open spec fn column_at(cols: Seq<ColumnModel>, name: Seq<char>, i: int) -> Option<int>
    decreases cols.len() - i,
{
    if i < 0 || i >= cols.len() {
        None
    } else if cols[i].name == name {
        Some(i)
    } else {
        column_at(cols, name, i + 1)
    }
}

/// Columns with one more, which takes the place of one of its name.
pub open spec fn with_column(cols: Seq<ColumnModel>, c: ColumnModel) -> Seq<ColumnModel> {
    match column_at(cols, c.name, 0) {
        Some(i) => cols.update(i, c),
        None => cols.push(c),
    }
}

/// Columns with others, from `i` on, added or replaced by name. Entries that
/// are no columns are passed over.
pub open spec fn merged(cols: Seq<ColumnModel>, extra: Seq<ColumnModel>, i: int) -> Seq<ColumnModel>
    decreases extra.len() - i,
{
    if i < 0 || i >= extra.len() {
        cols
    } else if is_note(extra[i].name) {
        merged(cols, extra, i + 1)
    } else {
        merged(with_column(cols, extra[i]), extra, i + 1)
    }
}

proof fn lemma_first(cols: Seq<ColumnModel>, name: Seq<char>, i: int, k: int)
    requires
        0 <= k <= i < cols.len(),
        tabledesc::is_first_column(cols, name, i),
    ensures
        column_at(cols, name, k) == Some(i),
    decreases i - k,
{
    if k < i {
        assert(cols[k].name != name);
        lemma_first(cols, name, i, k + 1);
    }
}

proof fn lemma_none(cols: Seq<ColumnModel>, name: Seq<char>, k: int)
    requires
        0 <= k <= cols.len(),
        !tabledesc::has_column(cols, name),
    ensures
        column_at(cols, name, k) is None,
    decreases cols.len() - k,
{
    if k < cols.len() {
        assert(cols[k].name != name);
        lemma_none(cols, name, k + 1);
    }
}

/// Merge extra columns into a table description, adding or replacing by
/// name.
pub fn merge_extra_columns(desc: &mut TableDesc, extra: &[ColumnDesc])
    ensures
        final(desc)@ == (TableDescModel {
            columns: merged(
                old(desc)@.columns,
                tabledesc::column_models(extra@),
                0,
            ),
            ..old(desc)@
        }),
{
    let ghost start = desc@;
    let ghost es = tabledesc::column_models(extra@);
    let ghost all = merged(desc@.columns, es, 0);
    let mut i: usize = 0;
    while i < extra.len()
        invariant
            i <= extra@.len(),
            es == tabledesc::column_models(extra@),
            all == merged(desc@.columns, es, i as int),
            desc@ == (TableDescModel { columns: desc@.columns, ..start }),
        decreases extra@.len() - i,
    {
        assert(es[i as int] == extra@[i as int]@);
        if !starts_with(extra[i].name.as_str(), "_") {
            let ghost cols = desc.columns@;
            let ghost cms = tabledesc::column_models(cols);
            let col = extra[i].clone();
            match column_position(&desc.columns, extra[i].name.as_str()) {
                Some(k) => {
                    proof {
                        lemma_first(cms, es[i as int].name, k as int, 0);
                    }
                    desc.columns.set(k, col);
                    assert(tabledesc::column_models(desc.columns@) =~= cms.update(
                        k as int,
                        col@,
                    ));
                },
                None => {
                    proof {
                        lemma_none(cms, es[i as int].name, 0);
                    }
                    desc.columns.push(col);
                    assert(tabledesc::column_models(desc.columns@) =~= cms.push(col@));
                },
            }
        }
        i = i + 1;
    }
}

/// The entries from `i` on that are columns, after `acc`.
pub open spec fn columns_only(extra: Seq<ColumnModel>, i: int, acc: Seq<ColumnModel>) -> Seq<
    ColumnModel,
>
    decreases extra.len() - i,
{
    if i < 0 || i >= extra.len() {
        acc
    } else if is_note(extra[i].name) {
        columns_only(extra, i + 1, acc)
    } else {
        columns_only(extra, i + 1, acc.push(extra[i]))
    }
}

/// A nameless table description of the given columns.
pub fn maketabdesc(columns: &[ColumnDesc]) -> (r: TableDesc)
    ensures
        r@ == (TableDescModel {
            name: Seq::empty(),
            version: Seq::empty(),
            comment: Seq::empty(),
            keywords: tabledesc::empty_record_model(),
            private_keywords: tabledesc::empty_record_model(),
            columns: columns_only(tabledesc::column_models(columns@), 0, Seq::empty()),
        }),
{
    let ghost es = tabledesc::column_models(columns@);
    let ghost all = columns_only(es, 0, Seq::empty());
    let mut out: Vec<ColumnDesc> = Vec::new();
    assert(tabledesc::column_models(out@) =~= Seq::<ColumnModel>::empty());
    let mut i: usize = 0;
    while i < columns.len()
        invariant
            i <= columns@.len(),
            es == tabledesc::column_models(columns@),
            all == columns_only(es, i as int, tabledesc::column_models(out@)),
        decreases columns@.len() - i,
    {
        assert(es[i as int] == columns@[i as int]@);
        if !starts_with(columns[i].name.as_str(), "_") {
            let ghost before = tabledesc::column_models(out@);
            let col = columns[i].clone();
            out.push(col);
            assert(tabledesc::column_models(out@) =~= before.push(col@));
        }
        i = i + 1;
    }
    let none: String = String::new();
    assert(none@ =~= Seq::<char>::empty());
    TableDesc {
        name: none.clone(),
        version: none.clone(),
        comment: none,
        keywords: empty_record(),
        private_keywords: empty_record(),
        columns: out,
    }
}

/// A name inside a directory.
pub open spec fn joined(dir: Seq<char>, name: Seq<char>) -> Seq<char> {
    if dir.len() == 0 || dir.last() == '/' {
        dir + name
    } else {
        dir + "/"@ + name
    }
}

fn ends_with_slash(s: &str) -> (r: bool)
    ensures
        r == (s@.len() > 0 && s@.last() == '/'),
{
    let n: usize = s.unicode_len();
    n > 0 && s.get_char(n - 1) == '/'
}

/// A name inside a directory.
pub fn join(dir: &str, name: &str) -> (r: String)
    ensures
        r@ == joined(dir@, name@),
{
    let mut s: String = dir.to_owned();
    if dir.unicode_len() > 0 && !ends_with_slash(dir) {
        s.append("/");
    }
    s.append(name);
    assert(s@ =~= joined(dir@, name@));
    s
}

/// A record with the links to the standard subtables from `i` on.
pub open spec fn linked(keywords: RecordModel, path: Seq<char>, dir: Seq<char>, i: int) -> RecordModel
    decreases STANDARD_SUBTABLES - i,
{
    if i < 0 || i >= STANDARD_SUBTABLES {
        keywords
    } else {
        let name = standard(i)->0;
        linked(
            keywords.set(
                name,
                defaults::relative_value(ValueModel::Table(joined(path, name)), dir),
            ),
            path,
            dir,
            i + 1,
        )
    }
}

/// No values, for every column of a table without rows.
pub open spec fn no_values(desc: TableDescModel) -> Seq<Seq<ValueModel>> {
    Seq::new(desc.columns.len(), |c: int| Seq::empty())
}

fn store_empty(w: &WritableTable, numbers: &FloatTexts, images: &[TiledImage]) -> (res: Result<
    TableFiles,
    MsError,
>)
    requires
        w.wf(),
        w@.rows() == 0,
        tabledesc::table_desc_ready(w@.desc),
    ensures
        match tablecreate::created(
            w@.desc,
            no_values(w@.desc),
            ssmdata::supplied(numbers, Seq::empty()),
            tablecreate::image_models(images@),
        ) {
            Ok(m) => res is Ok && res->Ok_0@ == m,
            Err(f) => res is Err && res->Err_0@ == MsFault::Create(WriteFault::Create(f)),
        },
{
    proof {
        w.lemma_sound();
        let none = no_values(w@.desc);
        assert forall|c: int| 0 <= c < none.len() implies #[trigger] w@.values()[c] =~= none[c] by {
            assert(w@.cells[c].len() == w@.rows());
        }
        assert(w@.values() =~= none);
    }
    let none: Vec<CellContent> = Vec::new();
    assert(none@ =~= Seq::<CellContent>::empty());
    match w.regrowth(numbers, none.as_slice(), images) {
        Ok(files) => Ok(files),
        Err(e) => Err(MsError::Create(e)),
    }
}

/// The description of the main table of a new Measurement Set.
pub open spec fn main_desc(
    required: TableDescModel,
    extra: Seq<ColumnModel>,
    path: Seq<char>,
    dir: Seq<char>,
) -> TableDescModel {
    TableDescModel {
        columns: merged(required.columns, extra, 0),
        keywords: linked(required.keywords, path, dir, 0),
        ..required
    }
}

/// The files of the main table of a new Measurement Set: the required
/// columns with the extra ones, and keywords that link the standard
/// subtables, each in a directory of its name inside `path`.
pub fn default_ms(
    path: &str,
    cwd: Option<&str>,
    schemas: &[Schema],
    extra: &[ColumnDesc],
    numbers: &FloatTexts,
    images: &[TiledImage],
) -> (res: Result<TableFiles, MsError>)
    requires
        schema_of(schema_models(schemas@), "MS"@, false, 0) matches Some(d) ==> {
            &&& d.keywords.aligned()
            &&& tabledesc::table_desc_ready(
                main_desc(
                    d,
                    tabledesc::column_models(extra@),
                    path@,
                    paths::absolute_name(path@, json::base_text(cwd)),
                ),
            )
        },
    ensures
        match schema_of(schema_models(schemas@), "MS"@, false, 0) {
            None => res is Err && res->Err_0@ == MsFault::BadSchema("MS"@),
            Some(d) => {
                let dir = paths::absolute_name(path@, json::base_text(cwd));
                let m = main_desc(d, tabledesc::column_models(extra@), path@, dir);
                match tablecreate::created(
                    m,
                    no_values(m),
                    ssmdata::supplied(numbers, Seq::empty()),
                    tablecreate::image_models(images@),
                ) {
                    Ok(files) => res is Ok && res->Ok_0@ == files,
                    Err(f) => res is Err && res->Err_0@ == MsFault::Create(WriteFault::Create(f)),
                }
            },
        },
{
    let ghost dir = paths::absolute_name(path@, json::base_text(cwd));
    let mut desc = required_ms_desc(schemas, None)?;
    let ghost d = desc@;
    merge_extra_columns(&mut desc, extra);
    let mut w = WritableTable::create(path, cwd, desc);
    let ghost columns = w@.desc.columns;
    let ghost all = linked(d.keywords, path@, dir, 0);
    let mut i: usize = 0;
    while i < STANDARD_SUBTABLES
        invariant
            i <= STANDARD_SUBTABLES,
            w.wf(),
            w@.rows() == 0,
            w@.dir == dir,
            w@.desc.keywords.aligned(),
            all == linked(w@.desc.keywords, path@, dir, i as int),
            w@.desc == (TableDescModel { columns, keywords: w@.desc.keywords, ..d }),
        decreases STANDARD_SUBTABLES - i,
    {
        match standard_subtable(i) {
            None => {},
            Some(name) => {
                let value = RecordValue::Table(join(path, name));
                proof {
                    lemma_backed(w@.desc.keywords, name@);
                    lemma_set_aligned(
                        w@.desc.keywords,
                        name@,
                        defaults::relative_value(value@, dir),
                    );
                }
                w.putkeyword(name, &value);
            },
        }
        i = i + 1;
    }
    store_empty(&w, numbers, images)
}

proof fn lemma_backed(r: RecordModel, name: Seq<char>)
    requires
        r.aligned(),
    ensures
        r.backed(name),
{
    match record::field_index(r.desc.fields, name) {
        Some(i) => {
            assert(record::is_first_named(r.desc.fields, name, i));
        },
        None => {},
    }
}

proof fn lemma_set_aligned(r: RecordModel, name: Seq<char>, v: ValueModel)
    requires
        r.aligned(),
    ensures
        r.set(name, v).aligned(),
{
    match record::field_index(r.desc.fields, name) {
        Some(i) => {
            assert(record::is_first_named(r.desc.fields, name, i));
        },
        None => {},
    }
}

/// The files of a single (possibly optional) subtable, from its required
/// description.
pub fn default_ms_subtable(
    name: &str,
    path: &str,
    cwd: Option<&str>,
    schemas: &[Schema],
    numbers: &FloatTexts,
    images: &[TiledImage],
) -> (res: Result<TableFiles, MsError>)
    requires
        schema_of(schema_models(schemas@), name@, false, 0) matches Some(d)
            ==> tabledesc::table_desc_ready(d),
    ensures
        match schema_of(schema_models(schemas@), name@, false, 0) {
            None => res is Err && res->Err_0@ == MsFault::BadSchema(name@),
            Some(d) => match tablecreate::created(
                d,
                no_values(d),
                ssmdata::supplied(numbers, Seq::empty()),
                tablecreate::image_models(images@),
            ) {
                Ok(files) => res is Ok && res->Ok_0@ == files,
                Err(f) => res is Err && res->Err_0@ == MsFault::Create(WriteFault::Create(f)),
            },
        },
{
    let desc = required_ms_desc(schemas, Some(name))?;
    let w = WritableTable::create(path, cwd, desc);
    store_empty(&w, numbers, images)
}

proof fn lemma_standard_distinct(i: int, j: int)
    requires
        0 <= i < STANDARD_SUBTABLES,
        0 <= j < STANDARD_SUBTABLES,
        i != j,
    ensures
        standard(i) != standard(j),
{
    reveal_strlit("ANTENNA");
    reveal_strlit("DATA_DESCRIPTION");
    reveal_strlit("FEED");
    reveal_strlit("FIELD");
    reveal_strlit("FLAG_CMD");
    reveal_strlit("HISTORY");
    reveal_strlit("OBSERVATION");
    reveal_strlit("POINTING");
    reveal_strlit("POLARIZATION");
    reveal_strlit("PROCESSOR");
    reveal_strlit("SPECTRAL_WINDOW");
    reveal_strlit("STATE");
    let a = standard(i)->0;
    let b = standard(j)->0;
    assert(a.len() != b.len() || a[0] != b[0]);
}

proof fn lemma_linked(keywords: RecordModel, path: Seq<char>, dir: Seq<char>, i: int, j: int)
    requires
        keywords.aligned(),
        0 <= i <= STANDARD_SUBTABLES,
        0 <= j < STANDARD_SUBTABLES,
        j < i ==> keywords.get(standard(j)->0) == Some(
            defaults::relative_value(ValueModel::Table(joined(path, standard(j)->0)), dir),
        ),
    ensures
        linked(keywords, path, dir, i).get(standard(j)->0) == Some(
            defaults::relative_value(ValueModel::Table(joined(path, standard(j)->0)), dir),
        ),
    decreases STANDARD_SUBTABLES - i,
{
    if i < STANDARD_SUBTABLES {
        let name = standard(i)->0;
        let v = defaults::relative_value(ValueModel::Table(joined(path, name)), dir);
        record::law_set_get(keywords, name, v, standard(j)->0);
        if i != j {
            lemma_standard_distinct(i, j);
        }
        lemma_linked(keywords.set(name, v), path, dir, i + 1, j);
    }
}

/// The main table of a new Measurement Set links every standard subtable.
pub proof fn law_subtables_linked(
    required: TableDescModel,
    extra: Seq<ColumnModel>,
    path: Seq<char>,
    dir: Seq<char>,
    j: int,
)
    requires
        required.keywords.aligned(),
        0 <= j < STANDARD_SUBTABLES,
    ensures
        main_desc(required, extra, path, dir).keywords.get(standard(j)->0) == Some(
            ValueModel::Table(paths::relative_name(joined(path, standard(j)->0), dir)),
        ),
{
    lemma_linked(required.keywords, path, dir, 0, j);
}

/// A name that starts with an underscore.
pub open spec fn underscored(name: Seq<char>) -> bool {
    name.len() > 0 && name[0] == '_'
}

proof fn lemma_note(name: Seq<char>)
    ensures
        is_note(name) == underscored(name),
{
    reveal_strlit("_");
    assert("_"@ =~= seq!['_']);
    if name.len() > 0 {
        assert(name.subrange(0, 1) =~= seq![name[0]]);
        if name[0] == '_' {
            assert(name.subrange(0, 1) =~= "_"@);
        } else {
            assert(name.subrange(0, 1)[0] == name[0]);
        }
    }
}

proof fn lemma_column_at(cols: Seq<ColumnModel>, name: Seq<char>, i: int)
    requires
        0 <= i <= cols.len(),
    ensures
        match column_at(cols, name, i) {
            Some(k) => i <= k < cols.len() && cols[k].name == name,
            None => forall|k: int| i <= k < cols.len() ==> (#[trigger] cols[k]).name != name,
        },
    decreases cols.len() - i,
{
    if i < cols.len() && cols[i].name != name {
        lemma_column_at(cols, name, i + 1);
    }
}

/// The extra columns from `from` on have another name, or are no columns.
pub open spec fn not_among(extra: Seq<ColumnModel>, from: int, name: Seq<char>) -> bool {
    forall|k: int|
        from <= k < extra.len() ==> (#[trigger] extra[k]).name != name || underscored(extra[k].name)
}

proof fn lemma_merged(cols: Seq<ColumnModel>, extra: Seq<ColumnModel>, i: int, k: int)
    requires
        0 <= i <= extra.len(),
        0 <= k < cols.len(),
    ensures
        merged(cols, extra, i).len() >= cols.len(),
        merged(cols, extra, i)[k].name == cols[k].name,
        not_among(extra, i, cols[k].name) ==> merged(cols, extra, i)[k] == cols[k],
    decreases extra.len() - i,
{
    if i < extra.len() {
        lemma_note(extra[i].name);
        if is_note(extra[i].name) {
            lemma_merged(cols, extra, i + 1, k);
        } else {
            lemma_column_at(cols, extra[i].name, 0);
            lemma_merged(with_column(cols, extra[i]), extra, i + 1, k);
        }
    }
}

/// Columns merged into others: the columns that were there keep their places
/// and names, and those that no extra column replaces stay as they were.
pub proof fn law_columns_kept(cols: Seq<ColumnModel>, extra: Seq<ColumnModel>, k: int)
    requires
        0 <= k < cols.len(),
    ensures
        merged(cols, extra, 0).len() >= cols.len(),
        merged(cols, extra, 0)[k].name == cols[k].name,
        not_among(extra, 0, cols[k].name) ==> merged(cols, extra, 0)[k] == cols[k],
{
    lemma_merged(cols, extra, 0, k);
}

proof fn lemma_merged_there(cols: Seq<ColumnModel>, extra: Seq<ColumnModel>, i: int, e: int) -> (
    k: int)
    requires
        0 <= i <= e < extra.len(),
        !underscored(extra[e].name),
        not_among(extra, e + 1, extra[e].name),
    ensures
        0 <= k < merged(cols, extra, i).len(),
        merged(cols, extra, i)[k] == extra[e],
    decreases extra.len() - i,
{
    lemma_note(extra[i].name);
    let c = extra[i];
    if is_note(c.name) {
        lemma_merged_there(cols, extra, i + 1, e)
    } else {
        let next = with_column(cols, c);
        lemma_column_at(cols, c.name, 0);
        if i == e {
            let k = match column_at(cols, c.name, 0) {
                Some(k) => k,
                None => cols.len() as int,
            };
            assert(next[k] == c);
            lemma_merged(next, extra, i + 1, k);
            k
        } else {
            lemma_merged_there(next, extra, i + 1, e)
        }
    }
}

/// Every extra column is among the merged ones, as its last description says;
/// it stands in place of the column of its name where there was one.
pub proof fn law_extra_merged(cols: Seq<ColumnModel>, extra: Seq<ColumnModel>, e: int) -> (k: int)
    requires
        0 <= e < extra.len(),
        !underscored(extra[e].name),
        not_among(extra, e + 1, extra[e].name),
    ensures
        0 <= k < merged(cols, extra, 0).len(),
        merged(cols, extra, 0)[k] == extra[e],
        k < cols.len() ==> cols[k].name == extra[e].name,
{
    let k = lemma_merged_there(cols, extra, 0, e);
    if k < cols.len() {
        lemma_merged(cols, extra, 0, k);
    }
    k
}

proof fn lemma_columns_only(extra: Seq<ColumnModel>, i: int, acc: Seq<ColumnModel>)
    requires
        0 <= i <= extra.len(),
    ensures
        columns_only(extra, i, acc) == acc + extra.skip(i).filter(
            |c: ColumnModel| !underscored(c.name),
        ),
    decreases extra.len() - i,
{
    let p = |c: ColumnModel| !underscored(c.name);
    if i < extra.len() {
        let c = extra[i];
        lemma_note(c.name);
        let rest = extra.skip(i + 1);
        assert(extra.skip(i) =~= seq![c] + rest);
        Seq::filter_distributes_over_add(seq![c], rest, p);
        reveal(Seq::filter);
        assert(seq![c].drop_last() =~= Seq::<ColumnModel>::empty());
        assert(seq![c].drop_last().filter(p) =~= Seq::<ColumnModel>::empty());
        assert(seq![c].filter(p) =~= if p(c) {
            seq![c]
        } else {
            Seq::empty()
        });
        if p(c) {
            lemma_columns_only(extra, i + 1, acc.push(c));
            assert(acc.push(c) + rest.filter(p) =~= acc + (seq![c] + rest.filter(p)));
        } else {
            lemma_columns_only(extra, i + 1, acc);
            assert(Seq::<ColumnModel>::empty() + rest.filter(p) =~= rest.filter(p));
        }
    } else {
        reveal(Seq::filter);
        assert(extra.skip(i) =~= Seq::<ColumnModel>::empty());
        assert(acc + Seq::<ColumnModel>::empty() =~= acc);
    }
}

/// A description made of columns holds those whose names do not start with an
/// underscore, in their order.
pub proof fn law_columns_described(extra: Seq<ColumnModel>)
    ensures
        columns_only(extra, 0, Seq::empty()) == extra.filter(
            |c: ColumnModel| !underscored(c.name),
        ),
{
    lemma_columns_only(extra, 0, Seq::empty());
    assert(extra.skip(0) =~= extra);
    let f = extra.filter(|c: ColumnModel| !underscored(c.name));
    assert(Seq::<ColumnModel>::empty() + f =~= f);
}

/// The description found for a table is that of the first schema with its name
/// and its kind; there is none where no schema has them.
pub proof fn law_schema_found(s: Seq<SchemaModel>, table: Seq<char>, complete: bool, i: int) -> (
    k: int)
    requires
        0 <= i <= s.len(),
    ensures
        match schema_of(s, table, complete, i) {
            Some(d) => i <= k < s.len() && s[k].table == table && s[k].complete == complete
                && s[k].desc == d && forall|j: int|
                i <= j < k ==> (#[trigger] s[j]).table != table || s[j].complete != complete,
            None => forall|j: int|
                i <= j < s.len() ==> (#[trigger] s[j]).table != table || s[j].complete != complete,
        },
    decreases s.len() - i,
{
    if i < s.len() && !(s[i].table == table && s[i].complete == complete) {
        law_schema_found(s, table, complete, i + 1)
    } else {
        i
    }
}

} // verus!
