//! A created table reads back what it was created from.
use crate::bytes;
use crate::celllaw;
use crate::columnset;
use crate::columnset::{BlobModel, InfoModel, ManagerModel, StandardModel};
use crate::datalaw;
use crate::desclaw;
use crate::ism;
use crate::ism::{IsmFault, IsmModel};
use crate::ismdata;
use crate::ismlaw;
use crate::record::{DataType, ValueModel};
use crate::recordlaw;
use crate::setlaw;
use crate::ssm;
use crate::ssm::{SsmFault, SsmModel};
use crate::ssmdata;
use crate::ssmdata::Supplied;
use crate::table;
use crate::table::CreateFault;
use crate::tablecells;
use crate::tablecreate;
use crate::tablecreate::{BuiltModel, NamedBytes, SlotModel, TiledImageModel};
use crate::tabledesc::{ColumnModel, TableDescModel};
use crate::tableread;
use crate::tableread::{ManagerFileModel, ReadFault};
use crate::text;
use vstd::prelude::*;

verus! {

/// The managers of a table's columns.
pub open spec fn slots(desc: TableDescModel) -> Seq<SlotModel> {
    tablecreate::slots_of(desc.columns, desc.columns.len())
}

/// The columns of the manager `dm`.
pub open spec fn columns_of(desc: TableDescModel, dm: int) -> Seq<usize> {
    tablecreate::members(
        tablecreate::sequence_numbers(desc.columns),
        dm,
        desc.columns.len(),
    )
}

/// The files built for the manager `dm`.
pub open spec fn built_of(
    desc: TableDescModel,
    values: Seq<Seq<ValueModel>>,
    t: Supplied,
    images: Seq<TiledImageModel>,
    dm: int,
) -> Result<BuiltModel, CreateFault> {
    tablecreate::manager_built(
        tablecreate::row_count(values),
        desc,
        values,
        slots(desc)[dm],
        dm,
        columns_of(desc, dm),
        t,
        images,
    )
}

#[verifier::rlimit(40)]
pub proof fn lemma_all_built(
    nrow: u64,
    desc: TableDescModel,
    values: Seq<Seq<ValueModel>>,
    t: Supplied,
    images: Seq<TiledImageModel>,
    dm: int,
    acc: Seq<BuiltModel>,
    i: int,
)
    requires
        0 <= dm <= slots(desc).len(),
        acc.len() == dm,
    ensures
        tablecreate::all_built(nrow, desc, values, t, images, dm, acc) matches Ok(s) ==> {
            &&& s.len() == slots(desc).len()
            &&& 0 <= i < dm ==> s[i] == acc[i]
            &&& dm <= i < s.len() ==> tablecreate::manager_built(
                nrow,
                desc,
                values,
                slots(desc)[i],
                i,
                columns_of(desc, i),
                t,
                images,
            ) == Ok::<BuiltModel, CreateFault>(s[i])
        },
    decreases slots(desc).len() - dm,
{
    if dm < slots(desc).len() {
        match tablecreate::manager_built(
            nrow,
            desc,
            values,
            slots(desc)[dm],
            dm,
            columns_of(desc, dm),
            t,
            images,
        ) {
            Err(_) => {},
            Ok(b) => {
                lemma_all_built(nrow, desc, values, t, images, dm + 1, acc.push(b), i);
                match tablecreate::all_built(nrow, desc, values, t, images, dm + 1, acc.push(b)) {
                    Err(_) => {},
                    Ok(s) => {
                        if i == dm {
                            assert(s[i] == acc.push(b)[i]);
                        } else if 0 <= i < dm {
                            assert(s[i] == acc.push(b)[i]);
                        }
                    },
                }
            },
        }
    }
}

proof fn lemma_find_slot(s: Seq<SlotModel>, manager_type: Seq<char>, group: Seq<char>, i: int)
    requires
        0 <= i,
    ensures
        match tablecreate::find_slot(s, manager_type, group, i) {
            Some(k) => i <= k < s.len() && s[k].manager_type == manager_type && s[k].group == group,
            None => forall|k: int|
                i <= k < s.len() ==> (#[trigger] s[k]).manager_type != manager_type || s[k].group
                    != group,
        },
    decreases s.len() - i,
{
    if i < s.len() && !(s[i].manager_type == manager_type && s[i].group == group) {
        lemma_find_slot(s, manager_type, group, i + 1);
    }
}

/// The managers are there from the first column that uses them on.
proof fn lemma_slots_grow(cols: Seq<ColumnModel>, a: nat, b: nat)
    requires
        a <= b <= cols.len(),
    ensures
        tablecreate::slots_of(cols, a).len() <= tablecreate::slots_of(cols, b).len() <= b,
        forall|k: int|
            0 <= k < tablecreate::slots_of(cols, a).len() ==> #[trigger] tablecreate::slots_of(
                cols,
                b,
            )[k] == tablecreate::slots_of(cols, a)[k],
    decreases b,
{
    if a < b {
        lemma_slots_grow(cols, a, (b - 1) as nat);
    } else if b > 0 {
        lemma_slots_grow(cols, (b - 1) as nat, (b - 1) as nat);
    }
}

/// Every column has a manager, of the type that its description names.
pub proof fn law_column_has_manager(cols: Seq<ColumnModel>, c: int)
    requires
        0 <= c < cols.len(),
    ensures
        ({
            let s = tablecreate::slots_of(cols, cols.len());
            let dm = tablecreate::slot_of(cols, c);
            &&& 0 <= dm < s.len() <= cols.len()
            &&& s[dm].manager_type == cols[c].data_manager_type
            &&& s[dm].group == tablecreate::group_of(cols[c])
        }),
{
    let before = tablecreate::slots_of(cols, c as nat);
    let after = tablecreate::slots_of(cols, (c + 1) as nat);
    lemma_find_slot(before, cols[c].data_manager_type, tablecreate::group_of(cols[c]), 0);
    lemma_slots_grow(cols, (c + 1) as nat, cols.len());
    let dm = tablecreate::slot_of(cols, c);
    assert(after == tablecreate::with_slot(before, cols[c]));
    assert(tablecreate::slots_of(cols, cols.len())[dm] == after[dm]);
}

/// No two managers have the same type and group.
proof fn lemma_slots_differ(cols: Seq<ColumnModel>, n: nat, a: int, b: int)
    requires
        n <= cols.len(),
        0 <= a < b < tablecreate::slots_of(cols, n).len(),
    ensures
        ({
            let s = tablecreate::slots_of(cols, n);
            s[a].manager_type != s[b].manager_type || s[a].group != s[b].group
        }),
    decreases n,
{
    let before = tablecreate::slots_of(cols, (n - 1) as nat);
    let cd = cols[n - 1];
    lemma_find_slot(before, cd.data_manager_type, tablecreate::group_of(cd), 0);
    if b < before.len() {
        lemma_slots_differ(cols, (n - 1) as nat, a, b);
    }
}

/// There is one manager per type and group: two columns have the same manager
/// exactly where they name the same type and the same group.
pub proof fn law_one_manager_per_group(cols: Seq<ColumnModel>, i: int, j: int)
    requires
        0 <= i < cols.len(),
        0 <= j < cols.len(),
    ensures
        tablecreate::slot_of(cols, i) == tablecreate::slot_of(cols, j) <==> {
            &&& cols[i].data_manager_type == cols[j].data_manager_type
            &&& tablecreate::group_of(cols[i]) == tablecreate::group_of(cols[j])
        },
{
    law_column_has_manager(cols, i);
    law_column_has_manager(cols, j);
    let a = tablecreate::slot_of(cols, i);
    let b = tablecreate::slot_of(cols, j);
    if a < b {
        lemma_slots_differ(cols, cols.len(), a, b);
    }
    if b < a {
        lemma_slots_differ(cols, cols.len(), b, a);
    }
}

/// Managers are numbered in the order of first use: a manager is used no
/// earlier than those with smaller numbers.
pub proof fn law_managers_in_order(cols: Seq<ColumnModel>, c: int, k: int)
    requires
        0 <= c < cols.len() <= u32::MAX,
        0 <= k < tablecreate::slot_of(cols, c),
    ensures
        exists|j: int| 0 <= j < c && #[trigger] tablecreate::slot_of(cols, j) == k,
{
    let before = tablecreate::slots_of(cols, c as nat);
    lemma_find_slot(before, cols[c].data_manager_type, tablecreate::group_of(cols[c]), 0);
    lemma_manager_has_columns(cols, c as nat, k);
}

proof fn lemma_members(cols: Seq<InfoModel>, seqs: Seq<u32>, dm: int, n: nat)
    requires
        n <= seqs.len(),
        n <= cols.len(),
        n <= u32::MAX,
        0 <= dm <= u32::MAX,
        forall|i: int| 0 <= i < n ==> (#[trigger] cols[i]).data_manager_seq == seqs[i],
    ensures
        tablecells::bound_before(cols, dm as u32, n) == tablecreate::members(seqs, dm, n).len(),
        forall|k: int|
            0 <= k < tablecreate::members(seqs, dm, n).len() ==> (#[trigger] tablecreate::members(
                seqs,
                dm,
                n,
            )[k]) < n,
    decreases n,
{
    if n > 0 {
        lemma_members(cols, seqs, dm, (n - 1) as nat);
        assert(cols[n - 1].data_manager_seq == seqs[n - 1]);
    }
}

proof fn lemma_members_prefix(seqs: Seq<u32>, dm: int, a: nat, b: nat)
    requires
        a <= b <= seqs.len(),
    ensures
        tablecreate::members(seqs, dm, a).len() <= tablecreate::members(seqs, dm, b).len(),
        forall|k: int|
            0 <= k < tablecreate::members(seqs, dm, a).len() ==> tablecreate::members(
                seqs,
                dm,
                a,
            )[k] == #[trigger] tablecreate::members(seqs, dm, b)[k],
    decreases b,
{
    if a < b {
        lemma_members_prefix(seqs, dm, a, (b - 1) as nat);
    }
}

/// A column's place among its manager's columns is where the manager lists
/// it.
pub proof fn lemma_within(cols: Seq<InfoModel>, seqs: Seq<u32>, c: int)
    requires
        0 <= c < seqs.len(),
        seqs.len() == cols.len(),
        cols.len() <= u32::MAX,
        forall|i: int| 0 <= i < cols.len() ==> (#[trigger] cols[i]).data_manager_seq == seqs[i],
    ensures
        ({
            let j = tablecells::bound_before(cols, seqs[c], c as nat);
            let m = tablecreate::members(seqs, seqs[c] as int, seqs.len());
            j < m.len() && m[j as int] == c
        }),
{
    let dm = seqs[c] as int;
    lemma_members(cols, seqs, dm, c as nat);
    lemma_members_prefix(seqs, dm, (c + 1) as nat, seqs.len());
    let j = tablecells::bound_before(cols, seqs[c], c as nat) as int;
    let step = tablecreate::members(seqs, dm, (c + 1) as nat);
    assert(step == tablecreate::members(seqs, dm, c as nat).push(c as usize));
    assert(step[j] == c);
    assert(tablecreate::members(seqs, dm, seqs.len())[j] == step[j]);
}

pub proof fn lemma_keyed_push<T>(s: Seq<(u32, T)>, x: (u32, T), seq: u32, i: int)
    requires
        0 <= i <= s.len(),
    ensures
        tableread::keyed(s.push(x), seq, i) == match tableread::keyed(s, seq, i) {
            Some(v) => Some(v),
            None => if x.0 == seq {
                Some(x.1)
            } else {
                None
            },
        },
    decreases s.len() - i,
{
    if i < s.len() {
        assert(s.push(x)[i] == s[i]);
        lemma_keyed_push(s, x, seq, i + 1);
    } else {
        assert(s.push(x)[i] == x);
        assert(tableread::keyed(s.push(x), seq, i + 1) is None);
    }
}

proof fn lemma_file_at(files: Seq<ManagerFileModel>, k: int, i: int)
    requires
        0 <= i <= k < files.len() <= u32::MAX,
        forall|x: int| 0 <= x < files.len() ==> (#[trigger] files[x]).sequence_nr == x,
    ensures
        tableread::manager_file(files, k as u32, i) == Some(files[k]),
    decreases k - i,
{
    if i < k {
        lemma_file_at(files, k, i + 1);
    }
}

proof fn lemma_manager_at(ms: Seq<ManagerModel>, k: int, i: int)
    requires
        0 <= i <= k < ms.len() <= u32::MAX,
        forall|x: int| 0 <= x < ms.len() ==> (#[trigger] ms[x]).sequence_nr == x,
    ensures
        tablecells::manager_of(ms, k as u32, i) == Some(ms[k]),
    decreases k - i,
{
    if i < k {
        lemma_manager_at(ms, k, i + 1);
    }
}

/// A manager whose file can be opened.
pub open spec fn openable(m: ManagerModel, f: ManagerFileModel, big: bool) -> bool {
    if m.manager_type == "StandardStMan"@ {
        ssm::parsed(f.data, big) is Ok
    } else if m.manager_type == "IncrementalStMan"@ {
        ism::parsed(f.data, big) is Ok
    } else {
        tableread::is_tiled(m.manager_type)
    }
}

/// What stands for the manager `k` among the opened files.
pub open spec fn stands(
    m: ManagerModel,
    f: ManagerFileModel,
    big: bool,
    k: int,
    ssm: Seq<(u32, SsmModel)>,
    ism: Seq<(u32, IsmModel)>,
) -> bool {
    &&& m.manager_type == "StandardStMan"@ ==> tableread::keyed(ssm, k as u32, 0) == Some(
        SsmModel { f0i: f.index, ..ssm::parsed(f.data, big)->Ok_0 },
    )
    &&& m.manager_type == "IncrementalStMan"@ ==> tableread::keyed(ism, k as u32, 0) == Some(
        ism::parsed(f.data, big)->Ok_0,
    )
}

#[verifier::rlimit(40)]
proof fn lemma_opened(
    dms: Seq<ManagerModel>,
    files: Seq<ManagerFileModel>,
    big: bool,
    k: int,
    ssm: Seq<(u32, SsmModel)>,
    ism: Seq<(u32, IsmModel)>,
)
    requires
        0 <= k <= dms.len(),
        dms.len() == files.len(),
        dms.len() <= u32::MAX,
        forall|x: int| 0 <= x < dms.len() ==> (#[trigger] dms[x]).sequence_nr == x,
        forall|x: int| 0 <= x < files.len() ==> (#[trigger] files[x]).sequence_nr == x,
        forall|x: int| 0 <= x < dms.len() ==> openable(#[trigger] dms[x], files[x], big),
        forall|x: int|
            0 <= x < k ==> stands(#[trigger] dms[x], files[x], big, x, ssm, ism),
        forall|x: int|
            k <= x < dms.len() ==> tableread::keyed(ssm, (#[trigger] dms[x]).sequence_nr, 0) is None
                && tableread::keyed(ism, dms[x].sequence_nr, 0) is None,
    ensures
        tableread::opened_managers(dms, files, big, k, ssm, ism) matches Ok((s, i)) && forall|x: int|
            0 <= x < dms.len() ==> stands(#[trigger] dms[x], files[x], big, x, s, i),
    decreases dms.len() - k,
{
    if k < dms.len() {
        let m = dms[k];
        let f = files[k];
        lemma_file_at(files, k, 0);
        assert(openable(dms[k], files[k], big));
        let (s, i) = if m.manager_type == "StandardStMan"@ {
            (
                ssm.push(
                    (
                        m.sequence_nr,
                        SsmModel { f0i: f.index, ..ssm::parsed(f.data, big)->Ok_0 },
                    ),
                ),
                ism,
            )
        } else if m.manager_type == "IncrementalStMan"@ {
            (ssm, ism.push((m.sequence_nr, ism::parsed(f.data, big)->Ok_0)))
        } else {
            (ssm, ism)
        };
        assert("StandardStMan"@ != "IncrementalStMan"@) by {
            reveal_strlit("StandardStMan");
            reveal_strlit("IncrementalStMan");
            assert("StandardStMan"@.len() != "IncrementalStMan"@.len());
        }
        assert forall|x: int| 0 <= x < k + 1 implies stands(
            #[trigger] dms[x],
            files[x],
            big,
            x,
            s,
            i,
        ) by {
            if x < k {
                assert(stands(dms[x], files[x], big, x, ssm, ism));
            }
            if s.len() > ssm.len() {
                lemma_keyed_push(ssm, s.last(), x as u32, 0);
                assert(s == ssm.push(s.last()));
            }
            if i.len() > ism.len() {
                lemma_keyed_push(ism, i.last(), x as u32, 0);
                assert(i == ism.push(i.last()));
            }
        }
        assert forall|x: int| k + 1 <= x < dms.len() implies tableread::keyed(
            s,
            (#[trigger] dms[x]).sequence_nr,
            0,
        ) is None && tableread::keyed(i, dms[x].sequence_nr, 0) is None by {
            if s.len() > ssm.len() {
                lemma_keyed_push(ssm, s.last(), x as u32, 0);
                assert(s == ssm.push(s.last()));
            }
            if i.len() > ism.len() {
                lemma_keyed_push(ism, i.last(), x as u32, 0);
                assert(i == ism.push(i.last()));
            }
        }
        lemma_opened(dms, files, big, k + 1, s, i);
    }
}

/// The contents of the first file, from `i` on, with a name.
pub open spec fn named(files: Seq<NamedBytes>, name: Seq<char>, i: int) -> Option<Seq<u8>>
    decreases files.len() - i,
{
    if i < 0 || i >= files.len() {
        None
    } else if files[i].0 == name {
        Some(files[i].1)
    } else {
        named(files, name, i + 1)
    }
}

/// The files that a reader finds for the managers `0..n` in a table
/// directory: the data file, and the array index file where there is one.
pub open spec fn found(files: Seq<NamedBytes>, n: nat) -> Seq<ManagerFileModel> {
    Seq::new(
        n,
        |dm: int|
            ManagerFileModel {
                sequence_nr: dm as u32,
                data: named(files, tablecreate::data_name(dm), 0)->0,
                index: named(files, tablecreate::data_name(dm) + "i"@, 0),
            },
    )
}

proof fn lemma_named_at(files: Seq<NamedBytes>, name: Seq<char>, k: int, i: int)
    requires
        0 <= i <= k < files.len(),
        files[k].0 == name,
        forall|x: int| i <= x < k ==> (#[trigger] files[x]).0 != name,
    ensures
        named(files, name, i) == Some(files[k].1),
    decreases k - i,
{
    if i < k {
        assert(files[i].0 != name);
        lemma_named_at(files, name, k, i + 1);
    }
}

proof fn lemma_named_none(files: Seq<NamedBytes>, name: Seq<char>, i: int)
    requires
        0 <= i <= files.len(),
        forall|x: int| i <= x < files.len() ==> (#[trigger] files[x]).0 != name,
    ensures
        named(files, name, i) is None,
    decreases files.len() - i,
{
    if i < files.len() {
        assert(files[i].0 != name);
        lemma_named_none(files, name, i + 1);
    }
}

proof fn lemma_data_name(dm: int)
    requires
        0 <= dm <= u32::MAX,
    ensures
        ({
            let name = tablecreate::data_name(dm);
            &&& name.len() > 7
            &&& name.subrange(7, name.len() as int) == text::decimal_nat(dm as nat)
            &&& forall|i: int| 7 <= i < name.len() ==> text::is_digit(#[trigger] name[i])
        }),
{
    reveal_strlit("table.f");
    text::lemma_decimal_digits(dm as nat);
    let name = tablecreate::data_name(dm);
    let d = text::decimal_nat(dm as nat);
    assert(bytes::low32(dm) == dm);
    assert(name == "table.f"@ + d);
    assert(name.subrange(7, name.len() as int) =~= d);
    assert forall|i: int| 7 <= i < name.len() implies text::is_digit(#[trigger] name[i]) by {
        assert(name[i] == d[i - 7]);
    }
}

/// No two files of a table have the same name.
#[verifier::rlimit(40)]
proof fn lemma_names_apart(a: int, b: int, seq: u32)
    requires
        0 <= a <= u32::MAX,
        0 <= b <= u32::MAX,
    ensures
        a != b ==> tablecreate::data_name(a) != tablecreate::data_name(b),
        a != b ==> tablecreate::data_name(a) + "i"@ != tablecreate::data_name(b) + "i"@,
        tablecreate::data_name(a) != tablecreate::data_name(b) + "i"@,
        tablecreate::data_name(a) != tablecreate::data_name(b) + "_TSM"@ + text::decimal(
            seq as int,
        ),
        tablecreate::data_name(a) + "i"@ != tablecreate::data_name(b) + "_TSM"@ + text::decimal(
            seq as int,
        ),
{
    let x = tablecreate::data_name(a);
    let y = tablecreate::data_name(b);
    reveal_strlit("i");
    reveal_strlit("_TSM");
    lemma_data_name(a);
    lemma_data_name(b);
    if a != b && x == y {
        text::law_decimal_distinct(a as nat, b as nat);
    }
    let xi = x + "i"@;
    let yi = y + "i"@;
    if a != b && xi == yi {
        assert(xi.drop_last() =~= x);
        assert(yi.drop_last() =~= y);
        text::law_decimal_distinct(a as nat, b as nat);
    }
    if x == yi {
        assert(yi[y.len() as int] == 'i');
        assert(text::is_digit(x[y.len() as int]));
    }
    text::lemma_decimal_digits(seq as nat);
    let d = text::decimal_nat(seq as nat);
    let z = y + "_TSM"@ + text::decimal(seq as int);
    let at = y.len() as int;
    assert(z[at] == '_');
    if x == z {
        assert(text::is_digit(x[at]));
    }
    if xi == z {
        assert(z.last() == d.last());
        assert(text::is_digit(d[d.len() - 1]));
        assert(xi.last() == 'i');
    }
}

/// What the index files hold under the name of the manager `dm`'s.
proof fn lemma_index_files(s: Seq<BuiltModel>, n: nat, x: int)
    requires
        n <= s.len() <= u32::MAX,
        0 <= x < tablecreate::index_files(s, n).len(),
    ensures
        exists|dm: int|
            0 <= dm < n && #[trigger] s[dm].index is Some && tablecreate::index_files(s, n)[x] == (
                tablecreate::data_name(dm) + "i"@,
                s[dm].index->0,
            ),
    decreases n,
{
    let before = tablecreate::index_files(s, (n - 1) as nat);
    if x < before.len() {
        lemma_index_files(s, (n - 1) as nat, x);
        let dm = choose|dm: int|
            0 <= dm < n - 1 && #[trigger] s[dm].index is Some && before[x] == (
                tablecreate::data_name(dm) + "i"@,
                s[dm].index->0,
            );
        assert(s[dm].index is Some);
    } else {
        assert(s[n - 1].index is Some);
    }
}

#[verifier::rlimit(40)]
proof fn lemma_index_file_there(s: Seq<BuiltModel>, n: nat, dm: int) -> (x: int)
    requires
        n <= s.len() <= u32::MAX,
        0 <= dm < n,
        s[dm].index is Some,
    ensures
        0 <= x < tablecreate::index_files(s, n).len(),
        tablecreate::index_files(s, n)[x] == (
            tablecreate::data_name(dm) + "i"@,
            s[dm].index->0,
        ),
        forall|k: int|
            0 <= k < x ==> (#[trigger] tablecreate::index_files(s, n)[k]).0
                != tablecreate::data_name(dm) + "i"@,
    decreases n,
{
    let before = tablecreate::index_files(s, (n - 1) as nat);
    if dm < n - 1 {
        let x = lemma_index_file_there(s, (n - 1) as nat, dm);
        assert forall|k: int| 0 <= k < x implies (#[trigger] tablecreate::index_files(s, n)[k]).0
            != tablecreate::data_name(dm) + "i"@ by {
            assert(tablecreate::index_files(s, n)[k] == before[k]);
        }
        x
    } else {
        let x = before.len() as int;
        assert forall|k: int| 0 <= k < x implies (#[trigger] tablecreate::index_files(s, n)[k]).0
            != tablecreate::data_name(dm) + "i"@ by {
            assert(tablecreate::index_files(s, n)[k] == before[k]);
            lemma_index_files(s, (n - 1) as nat, k);
            let e = choose|e: int|
                0 <= e < n - 1 && #[trigger] s[e].index is Some && before[k] == (
                    tablecreate::data_name(e) + "i"@,
                    s[e].index->0,
                );
            lemma_names_apart(e, dm, 0);
        }
        x
    }
}

proof fn lemma_tile_files(s: Seq<BuiltModel>, n: nat, x: int)
    requires
        n <= s.len() <= u32::MAX,
        0 <= x < tablecreate::tile_files(s, n).len(),
    ensures
        exists|dm: int, seq: u32|
            0 <= dm < n && tablecreate::tile_files(s, n)[x].0 == #[trigger] tablecreate::data_name(
                dm,
            ) + "_TSM"@ + #[trigger] text::decimal(seq as int),
    decreases n,
{
    let before = tablecreate::tile_files(s, (n - 1) as nat);
    if x < before.len() {
        lemma_tile_files(s, (n - 1) as nat, x);
        let (dm, seq) = choose|dm: int, seq: u32|
            0 <= dm < n - 1 && before[x].0 == #[trigger] tablecreate::data_name(dm) + "_TSM"@
                + #[trigger] text::decimal(seq as int);
        assert(tablecreate::tile_files(s, n)[x] == before[x]);
    } else {
        let (seq, b) = s[n - 1].tile->0;
        assert(tablecreate::tile_files(s, n)[x].0 == tablecreate::data_name(n - 1) + "_TSM"@
            + text::decimal(seq as int));
    }
}

/// All files beside `table.dat`.
pub open spec fn all_files(s: Seq<BuiltModel>) -> Seq<NamedBytes> {
    tablecreate::data_files(s, s.len()) + tablecreate::index_files(s, s.len())
        + tablecreate::tile_files(s, s.len())
}

/// A reader finds each manager's files under their names.
#[verifier::rlimit(40)]
pub proof fn law_files_found(s: Seq<BuiltModel>, dm: int)
    requires
        s.len() <= u32::MAX,
        0 <= dm < s.len(),
    ensures
        named(all_files(s), tablecreate::data_name(dm), 0) == Some(s[dm].data),
        named(all_files(s), tablecreate::data_name(dm) + "i"@, 0) == s[dm].index,
{
    let n = s.len();
    let a = tablecreate::data_files(s, n);
    let b = tablecreate::index_files(s, n);
    let c = tablecreate::tile_files(s, n);
    let all = all_files(s);
    let name = tablecreate::data_name(dm);
    assert(all[dm] == a[dm]);
    assert forall|x: int| 0 <= x < dm implies (#[trigger] all[x]).0 != name by {
        assert(all[x] == a[x]);
        lemma_names_apart(x, dm, 0);
    }
    lemma_named_at(all, name, dm, 0);
    let index = name + "i"@;
    assert forall|x: int| 0 <= x < a.len() implies (#[trigger] all[x]).0 != index by {
        assert(all[x] == a[x]);
        lemma_names_apart(x, dm, 0);
    }
    if s[dm].index is Some {
        let x = lemma_index_file_there(s, n, dm);
        assert(all[a.len() + x] == b[x]);
        assert forall|k: int| 0 <= k < a.len() + x implies (#[trigger] all[k]).0 != index by {
            if k >= a.len() {
                assert(all[k] == b[k - a.len()]);
            }
        }
        lemma_named_at(all, index, a.len() + x, 0);
    } else {
        assert forall|k: int| 0 <= k < all.len() implies (#[trigger] all[k]).0 != index by {
            if k >= a.len() + b.len() {
                let x = k - a.len() - b.len();
                assert(all[k] == c[x]);
                lemma_tile_files(s, n, x);
                let (e, seq) = choose|e: int, seq: u32|
                    0 <= e < n && c[x].0 == #[trigger] tablecreate::data_name(e) + "_TSM"@
                        + #[trigger] text::decimal(seq as int);
                lemma_names_apart(dm, e, seq);
            } else if k >= a.len() {
                let x = k - a.len();
                assert(all[k] == b[x]);
                lemma_index_files(s, n, x);
                let e = choose|e: int|
                    0 <= e < n && #[trigger] s[e].index is Some && b[x] == (
                        tablecreate::data_name(e) + "i"@,
                        s[e].index->0,
                    );
                if e != dm {
                    lemma_names_apart(e, dm, 0);
                }
            }
        }
        lemma_named_none(all, index, 0);
    }
}

/// The manager `dm` can be stored within the limits of its file format.
#[verifier::opaque]
pub open spec fn manager_within(
    desc: TableDescModel,
    values: Seq<Seq<ValueModel>>,
    t: Supplied,
    dm: int,
) -> bool {
    let nrow = tablecreate::row_count(values);
    let slot = slots(desc)[dm];
    let cols = columns_of(desc, dm);
    &&& slot.manager_type == "StandardStMan"@ ==> {
        &&& datalaw::fits_format(false, nrow, desc, values, cols, t)
        &&& setlaw::standard_storable(
            ssmdata::ssm_data(false, nrow, slot.name, desc, values, cols, t)->Ok_0.manager,
        )
    }
    &&& slot.manager_type == "IncrementalStMan"@ ==> {
        &&& ismdata::indexable(false, nrow, desc, values, cols)
        &&& ssmdata::values_ready(desc, values, cols, nrow)
    }
}

/// A table that can be created, within the limits of the file formats.
pub open spec fn storable(
    desc: TableDescModel,
    values: Seq<Seq<ValueModel>>,
    t: Supplied,
    images: Seq<TiledImageModel>,
) -> bool {
    let nrow = tablecreate::row_count(values);
    &&& tablecreate::created(desc, values, t, images) is Ok
    &&& desclaw::table_desc_storable(desc)
    &&& tablecreate::all_built(nrow, desc, values, t, images, 0, Seq::empty()) matches Ok(s)
        && setlaw::managers_storable(tablecreate::blobs(s))
    &&& forall|dm: int|
        0 <= dm < slots(desc).len() ==> #[trigger] manager_within(desc, values, t, dm)
}

/// A value that its column gives back as it is.
pub open spec fn faithful(cd: ColumnModel, v: ValueModel) -> bool {
    if cd.data_manager_type == "StandardStMan"@ {
        if cd.kind is Array {
            cd.data_type != DataType::String && (v matches ValueModel::Array(a)
                && celllaw::array_storable(cd.data_type, a))
        } else {
            cd.kind is Scalar && datalaw::faithful_scalar(cd, v)
        }
    } else {
        cd.data_manager_type == "IncrementalStMan"@ && recordlaw::scalar_fits(cd.data_type, v)
    }
}

/// The files built for the managers.
pub open spec fn built(
    desc: TableDescModel,
    values: Seq<Seq<ValueModel>>,
    t: Supplied,
    images: Seq<TiledImageModel>,
) -> Seq<BuiltModel> {
    tablecreate::all_built(
        tablecreate::row_count(values),
        desc,
        values,
        t,
        images,
        0,
        Seq::empty(),
    )->Ok_0
}

proof fn lemma_manager_has_columns(cols: Seq<ColumnModel>, n: nat, dm: int)
    requires
        n <= cols.len() <= u32::MAX,
        0 <= dm < tablecreate::slots_of(cols, n).len(),
    ensures
        exists|c: int| 0 <= c < n && #[trigger] tablecreate::slot_of(cols, c) == dm,
    decreases n,
{
    let before = tablecreate::slots_of(cols, (n - 1) as nat);
    if dm < before.len() {
        lemma_manager_has_columns(cols, (n - 1) as nat, dm);
        let c = choose|c: int| 0 <= c < n - 1 && #[trigger] tablecreate::slot_of(cols, c) == dm;
        assert(tablecreate::slot_of(cols, c) == dm);
    } else {
        assert(tablecreate::slot_of(cols, n - 1) == dm);
    }
}

pub proof fn lemma_member(seqs: Seq<u32>, dm: int, c: int)
    requires
        0 <= c < seqs.len(),
        seqs[c] == dm,
    ensures
        tablecreate::members(seqs, dm, seqs.len()).len() > 0,
{
    lemma_members_prefix(seqs, dm, (c + 1) as nat, seqs.len());
    assert(tablecreate::members(seqs, dm, (c + 1) as nat).len() > 0);
}

/// A StandardStMan manager's files, as they are built.
proof fn lemma_standard_built(
    nrow: u64,
    desc: TableDescModel,
    values: Seq<Seq<ValueModel>>,
    slot: SlotModel,
    dm: int,
    cols: Seq<usize>,
    t: Supplied,
    images: Seq<TiledImageModel>,
)
    requires
        slot.manager_type == "StandardStMan"@,
        cols.len() > 0,
        datalaw::fits_format(false, nrow, desc, values, cols, t),
    ensures
        ({
            let out = ssmdata::ssm_data(false, nrow, slot.name, desc, values, cols, t)->Ok_0;
            &&& tablecreate::manager_built(nrow, desc, values, slot, dm, cols, t, images) matches Ok(
                b,
            )
            &&& b.data == out.file
            &&& b.index == out.f0i
            &&& b.blob.blob == columnset::standard_bytes(out.manager)
            &&& ssm::parsed(out.file, false) is Ok
        }),
{
    reveal(tablecreate::manager_built);
    datalaw::lemma_opened(
        false,
        nrow,
        desc,
        values,
        cols,
        ssmdata::manager_layout(desc, cols),
        t,
        slot.name,
    );
}

/// An IncrementalStMan manager's file, as it is built.
proof fn lemma_incremental_built(
    nrow: u64,
    desc: TableDescModel,
    values: Seq<Seq<ValueModel>>,
    slot: SlotModel,
    dm: int,
    cols: Seq<usize>,
    t: Supplied,
    images: Seq<TiledImageModel>,
)
    requires
        slot.manager_type == "IncrementalStMan"@,
        ismdata::indexable(false, nrow, desc, values, cols),
        tablecreate::manager_built(nrow, desc, values, slot, dm, cols, t, images) is Ok,
    ensures
        ({
            let b = tablecreate::manager_built(nrow, desc, values, slot, dm, cols, t, images)->Ok_0;
            &&& ismdata::ism_data(false, nrow, slot.name, desc, values, cols) == Ok::<
                Seq<u8>,
                CreateFault,
            >(b.data)
            &&& ism::parsed(b.data, false) is Ok
        }),
{
    reveal(tablecreate::manager_built);
    lemma_types_apart();
    let lists = ismdata::column_lists(false, desc, values, cols, 0, Seq::empty())->Ok_0;
    ismlaw::law_file_parsed(false, nrow, lists);
}

pub proof fn lemma_types_apart()
    ensures
        "StandardStMan"@ != "IncrementalStMan"@,
{
    reveal_strlit("StandardStMan");
    reveal_strlit("IncrementalStMan");
    assert("StandardStMan"@.len() != "IncrementalStMan"@.len());
}

/// What is noted of any manager.
proof fn lemma_noted(
    nrow: u64,
    desc: TableDescModel,
    values: Seq<Seq<ValueModel>>,
    slot: SlotModel,
    dm: int,
    cols: Seq<usize>,
    t: Supplied,
    images: Seq<TiledImageModel>,
)
    ensures
        tablecreate::manager_built(nrow, desc, values, slot, dm, cols, t, images) matches Ok(b) ==> {
            &&& b.blob.manager_type == slot.manager_type
            &&& b.blob.sequence_nr == bytes::low32(dm)
            &&& slot.manager_type == "StandardStMan"@ || slot.manager_type == "IncrementalStMan"@
                || tableread::is_tiled(slot.manager_type)
        },
{
    reveal(tablecreate::manager_built);
}

proof fn lemma_columns_there(desc: TableDescModel, dm: int)
    requires
        desc.columns.len() <= u32::MAX,
        0 <= dm < slots(desc).len(),
    ensures
        columns_of(desc, dm).len() > 0,
        slots(desc).len() <= u32::MAX,
        bytes::low32(dm) == dm,
{
    lemma_manager_has_columns(desc.columns, desc.columns.len(), dm);
    let c = choose|c: int|
        0 <= c < desc.columns.len() && #[trigger] tablecreate::slot_of(desc.columns, c) == dm;
    lemma_slots_grow(desc.columns, desc.columns.len(), desc.columns.len());
    lemma_member(tablecreate::sequence_numbers(desc.columns), dm, c);
}

/// The manager `dm` of a created table can be opened.
#[verifier::rlimit(40)]
proof fn lemma_openable(
    desc: TableDescModel,
    values: Seq<Seq<ValueModel>>,
    t: Supplied,
    images: Seq<TiledImageModel>,
    dm: int,
)
    requires
        storable(desc, values, t, images),
        0 <= dm < slots(desc).len(),
    ensures
        built(desc, values, t, images).len() == slots(desc).len(),
        built_of(desc, values, t, images, dm) == Ok::<BuiltModel, CreateFault>(
            built(desc, values, t, images)[dm],
        ),
        ({
            let b = built(desc, values, t, images)[dm];
            let kind = slots(desc)[dm].manager_type;
            &&& b.blob.manager_type == kind
            &&& b.blob.sequence_nr == dm
            &&& if kind == "StandardStMan"@ {
                ssm::parsed(b.data, false) is Ok
            } else if kind == "IncrementalStMan"@ {
                ism::parsed(b.data, false) is Ok
            } else {
                tableread::is_tiled(kind)
            }
        }),
{
    let nrow = tablecreate::row_count(values);
    let slot = slots(desc)[dm];
    let cols = columns_of(desc, dm);
    lemma_all_built(nrow, desc, values, t, images, 0, Seq::empty(), dm);
    lemma_columns_there(desc, dm);
    lemma_noted(nrow, desc, values, slot, dm, cols, t, images);
    assert(manager_within(desc, values, t, dm));
    if slot.manager_type == "StandardStMan"@ {
        assert(datalaw::fits_format(false, nrow, desc, values, cols, t)) by {
            reveal(manager_within);
        }
        lemma_standard_built(nrow, desc, values, slot, dm, cols, t, images);
    } else if slot.manager_type == "IncrementalStMan"@ {
        assert(ismdata::indexable(false, nrow, desc, values, cols)) by {
            reveal(manager_within);
        }
        lemma_incremental_built(nrow, desc, values, slot, dm, cols, t, images);
    }
}

/// What the files of a created table are made of.
proof fn lemma_created(
    desc: TableDescModel,
    values: Seq<Seq<ValueModel>>,
    t: Supplied,
    images: Seq<TiledImageModel>,
)
    requires
        tablecreate::created(desc, values, t, images) is Ok,
    ensures
        ({
            let files = tablecreate::created(desc, values, t, images)->Ok_0;
            let s = built(desc, values, t, images);
            &&& files.files == all_files(s)
            &&& table::table_dat_bytes(
                false,
                tablecreate::row_count(values),
                desc,
                tablecreate::blobs(s),
                tablecreate::sequence_numbers(desc.columns),
            ) == Ok::<Seq<u8>, crate::record::RecordFault>(files.dat)
        }),
{
    reveal(tablecreate::created);
}

/// A created table is opened from its files: its description is as stored,
/// its columns are bound as assigned, and every manager's file stands under
/// its number.
#[verifier::rlimit(40)]
pub proof fn law_created_opens(
    path: Seq<char>,
    readonly: bool,
    desc: TableDescModel,
    values: Seq<Seq<ValueModel>>,
    t: Supplied,
    images: Seq<TiledImageModel>,
)
    requires
        storable(desc, values, t, images),
    ensures
        ({
            let files = tablecreate::created(desc, values, t, images)->Ok_0;
            let nrow = tablecreate::row_count(values);
            let s = built(desc, values, t, images);
            let fs = found(files.files, slots(desc).len());
            &&& tableread::table_of(path, readonly, files.dat, None, fs) matches Ok(m)
            &&& m.path == path
            &&& m.writable == !readonly
            &&& m.dat == table::stored_table_dat(
                false,
                nrow,
                desc,
                tablecreate::blobs(s),
                tablecreate::sequence_numbers(desc.columns),
            )
            &&& forall|dm: int|
                0 <= dm < slots(desc).len() ==> stands(
                    #[trigger] setlaw::stored_managers(tablecreate::blobs(s))[dm],
                    fs[dm],
                    false,
                    dm,
                    m.ssm_files,
                    m.ism_files,
                )
        }),
{
    let files = tablecreate::created(desc, values, t, images)->Ok_0;
    let nrow = tablecreate::row_count(values);
    let s = built(desc, values, t, images);
    let n = slots(desc).len();
    let fs = found(files.files, n);
    let seqs = tablecreate::sequence_numbers(desc.columns);
    let dms = tablecreate::blobs(s);
    let ms = setlaw::stored_managers(dms);
    lemma_all_built(nrow, desc, values, t, images, 0, Seq::empty(), 0);
    lemma_slots_grow(desc.columns, desc.columns.len(), desc.columns.len());
    lemma_created(desc, values, t, images);
    assert(setlaw::bindings_storable(desc.columns, seqs)) by {
        reveal(setlaw::bindings_storable);
        reveal(desclaw::columns_storable);
    }
    table::law_table_dat_round_trip(false, nrow, desc, dms, seqs);
    assert forall|x: int| 0 <= x < ms.len() implies (#[trigger] ms[x]).sequence_nr == x by {
        lemma_openable(desc, values, t, images, x);
    }
    assert forall|x: int| 0 <= x < ms.len() implies openable(#[trigger] ms[x], fs[x], false) by {
        lemma_openable(desc, values, t, images, x);
        law_files_found(s, x);
    }
    lemma_opened(ms, fs, false, 0, Seq::empty(), Seq::empty());
}

/// Every value of a created table is read back from its files: from every
/// column whose manager stores it as it is, and from every row.
#[verifier::rlimit(40)]
pub proof fn law_created_reads_back(
    path: Seq<char>,
    readonly: bool,
    desc: TableDescModel,
    values: Seq<Seq<ValueModel>>,
    t: Supplied,
    images: Seq<TiledImageModel>,
    c: int,
    row: u64,
)
    requires
        storable(desc, values, t, images),
        0 <= c < desc.columns.len(),
        row < tablecreate::row_count(values),
        faithful(desc.columns[c], values[c][row as int]),
    ensures
        ({
            let files = tablecreate::created(desc, values, t, images)->Ok_0;
            let fs = found(files.files, slots(desc).len());
            &&& tableread::table_of(path, readonly, files.dat, None, fs) matches Ok(m)
            &&& m.has_column(c)
            &&& m.dat.header.nrow == tablecreate::row_count(values)
            &&& m.cell(c, row) == Ok::<ValueModel, ReadFault>(values[c][row as int])
        }),
{
    law_created_opens(path, readonly, desc, values, t, images);
    lemma_created(desc, values, t, images);
    let files = tablecreate::created(desc, values, t, images)->Ok_0;
    let s = built(desc, values, t, images);
    let n = slots(desc).len();
    let fs = found(files.files, n);
    let m = tableread::table_of(path, readonly, files.dat, None, fs)->Ok_0;
    let seqs = tablecreate::sequence_numbers(desc.columns);
    let ms = setlaw::stored_managers(tablecreate::blobs(s));
    let cd = desc.columns[c];
    let dm = tablecreate::slot_of(desc.columns, c);
    law_column_has_manager(desc.columns, c);
    lemma_columns_there(desc, dm);
    assert(seqs[c] == dm);
    lemma_openable(desc, values, t, images, dm);
    let infos = m.dat.column_set.columns;
    assert(infos == setlaw::stored_infos(desc.columns, seqs));
    lemma_within(infos, seqs, c);
    let j = tablecells::bound_before(infos, seqs[c], c as nat) as int;
    let cols = columns_of(desc, dm);
    assert(cols[j] == c);
    assert forall|x: int| 0 <= x < ms.len() implies (#[trigger] ms[x]).sequence_nr == x by {
        lemma_openable(desc, values, t, images, x);
    }
    lemma_manager_at(ms, dm, 0);
    law_files_found(s, dm);
    assert(stands(ms[dm], fs[dm], false, dm, m.ssm_files, m.ism_files));
    assert(m.storage_type(c) == cd.data_manager_type);
    assert(manager_within(desc, values, t, dm));
    let read = m.dat.desc.columns[c];
    assert(read == desclaw::stored_column(cd));
    if cd.data_manager_type == "StandardStMan"@ {
        lemma_standard_cell(desc, values, t, images, dm, j, row, read);
        let slot = slots(desc)[dm];
        let nrow = tablecreate::row_count(values);
        let out = ssmdata::ssm_data(false, nrow, slot.name, desc, values, cols, t)->Ok_0;
        assert(m.standard(seqs[c]) == Some(out.manager));
    } else {
        lemma_types_apart();
        lemma_incremental_cell(desc, values, t, images, dm, j, row, read);
    }
}

/// A StandardStMan manager gives a value back.
#[verifier::rlimit(40)]
proof fn lemma_standard_cell(
    desc: TableDescModel,
    values: Seq<Seq<ValueModel>>,
    t: Supplied,
    images: Seq<TiledImageModel>,
    dm: int,
    j: int,
    row: u64,
    read: ColumnModel,
)
    requires
        0 <= dm < slots(desc).len(),
        slots(desc)[dm].manager_type == "StandardStMan"@,
        manager_within(desc, values, t, dm),
        0 <= j < columns_of(desc, dm).len(),
        row < tablecreate::row_count(values),
        ({
            let c = columns_of(desc, dm)[j] as int;
            let cd = desc.columns[c];
            &&& cd.data_manager_type == "StandardStMan"@
            &&& faithful(cd, values[c][row as int])
            &&& read == desclaw::stored_column(cd)
        }),
    ensures
        ({
            let c = columns_of(desc, dm)[j] as int;
            let nrow = tablecreate::row_count(values);
            let slot = slots(desc)[dm];
            let b = built_of(desc, values, t, images, dm)->Ok_0;
            let file = SsmModel { f0i: b.index, ..ssm::parsed(b.data, false)->Ok_0 };
            let manager = ssmdata::ssm_data(
                false,
                nrow,
                slot.name,
                desc,
                values,
                columns_of(desc, dm),
                t,
            )->Ok_0.manager;
            &&& columnset::blob_of(b.blob.blob, "StandardStMan"@) == Ok::<
                BlobModel,
                columnset::ColumnSetFault,
            >(BlobModel::StandardStMan(manager))
            &&& (if read.kind is Array {
                file.array(manager, j, read, row)
            } else {
                file.scalar(manager, j, read, row)
            }) == Ok::<ValueModel, SsmFault>(values[c][row as int])
        }),
{
    let nrow = tablecreate::row_count(values);
    let slot = slots(desc)[dm];
    let cols = columns_of(desc, dm);
    let c = cols[j] as int;
    let cd = desc.columns[c];
    let v = values[c][row as int];
    assert(datalaw::fits_format(false, nrow, desc, values, cols, t)) by {
        reveal(manager_within);
    }
    let out = ssmdata::ssm_data(false, nrow, slot.name, desc, values, cols, t)->Ok_0;
    assert(setlaw::standard_storable(out.manager)) by {
        reveal(manager_within);
    }
    lemma_standard_built(nrow, desc, values, slot, dm, cols, t, images);
    setlaw::law_standard_round_trip(out.manager, "StandardStMan"@);
    let file = datalaw::opened(out, false);
    let l = ssmdata::manager_layout(desc, cols);
    if cd.kind is Array {
        let a = v->Array_0;
        datalaw::law_array_read_back(false, nrow, desc, values, cols, l, t, slot.name, j, row, a);
        lemma_array_same(file, out.manager, j, cd, read, row);
    } else {
        datalaw::law_scalar_read_back(false, nrow, desc, values, cols, l, t, slot.name, j, row);
        lemma_scalar_same(file, out.manager, j, cd, read, row);
    }
}

proof fn lemma_array_same(
    file: SsmModel,
    manager: StandardModel,
    j: int,
    cd: ColumnModel,
    read: ColumnModel,
    row: u64,
)
    requires
        read == desclaw::stored_column(cd),
    ensures
        file.array(manager, j, read, row) == file.array(manager, j, cd, row),
{
}

proof fn lemma_scalar_same(
    file: SsmModel,
    manager: StandardModel,
    j: int,
    cd: ColumnModel,
    read: ColumnModel,
    row: u64,
)
    requires
        read == desclaw::stored_column(cd),
    ensures
        file.scalar(manager, j, read, row) == file.scalar(manager, j, cd, row),
{
}

/// An IncrementalStMan manager gives a value back.
#[verifier::rlimit(40)]
proof fn lemma_incremental_cell(
    desc: TableDescModel,
    values: Seq<Seq<ValueModel>>,
    t: Supplied,
    images: Seq<TiledImageModel>,
    dm: int,
    j: int,
    row: u64,
    read: ColumnModel,
)
    requires
        0 <= dm < slots(desc).len(),
        slots(desc)[dm].manager_type == "IncrementalStMan"@,
        manager_within(desc, values, t, dm),
        built_of(desc, values, t, images, dm) is Ok,
        0 <= j < columns_of(desc, dm).len(),
        row < tablecreate::row_count(values),
        ({
            let c = columns_of(desc, dm)[j] as int;
            let cd = desc.columns[c];
            &&& recordlaw::scalar_fits(cd.data_type, values[c][row as int])
            &&& read == desclaw::stored_column(cd)
        }),
    ensures
        ({
            let c = columns_of(desc, dm)[j] as int;
            let b = built_of(desc, values, t, images, dm)->Ok_0;
            ism::parsed(b.data, false)->Ok_0.scalar(j, read, row) == Ok::<ValueModel, IsmFault>(
                values[c][row as int],
            )
        }),
{
    let nrow = tablecreate::row_count(values);
    let slot = slots(desc)[dm];
    let cols = columns_of(desc, dm);
    let cd = desc.columns[cols[j] as int];
    assert(ismdata::indexable(false, nrow, desc, values, cols) && ssmdata::values_ready(
        desc,
        values,
        cols,
        nrow,
    )) by {
        reveal(manager_within);
    }
    lemma_incremental_built(nrow, desc, values, slot, dm, cols, t, images);
    ismdata::law_read_back(false, nrow, slot.name, desc, values, cols, j, row);
    let b = built_of(desc, values, t, images, dm)->Ok_0;
    let file = ism::parsed(b.data, false)->Ok_0;
    assert(file.scalar(j, read, row) == file.scalar(j, cd, row));
}

proof fn lemma_count_prefix(s: Seq<SlotModel>, x: SlotModel, g: Seq<char>, n: nat)
    requires
        n <= s.len(),
    ensures
        tablecreate::group_count(s.push(x), g, n) == tablecreate::group_count(s, g, n),
    decreases n,
{
    if n > 0 {
        lemma_count_prefix(s, x, g, (n - 1) as nat);
        assert(s.push(x)[n - 1] == s[n - 1]);
    }
}

proof fn lemma_count_grows(s: Seq<SlotModel>, g: Seq<char>, i: int, j: int)
    requires
        0 <= i < j <= s.len(),
        s[i].group == g,
    ensures
        tablecreate::group_count(s, g, i as nat) < tablecreate::group_count(s, g, j as nat),
    decreases j,
{
    if j > i + 1 {
        lemma_count_grows(s, g, i, j - 1);
    }
}

proof fn lemma_slot_names(cols: Seq<ColumnModel>, n: nat, i: int)
    requires
        n <= cols.len(),
        0 <= i < tablecreate::slots_of(cols, n).len(),
    ensures
        ({
            let s = tablecreate::slots_of(cols, n);
            s[i].name == tablecreate::numbered(
                s[i].group,
                tablecreate::group_count(s, s[i].group, i as nat),
            )
        }),
    decreases n,
{
    let before = tablecreate::slots_of(cols, (n - 1) as nat);
    let s = tablecreate::slots_of(cols, n);
    if s.len() > before.len() {
        let x = s.last();
        assert(s =~= before.push(x));
        lemma_count_prefix(before, x, s[i].group, i as nat);
    }
    if i < before.len() {
        assert(s[i] == before[i]);
        lemma_slot_names(cols, (n - 1) as nat, i);
    }
}

/// The first manager of a group has the group's name, every other one a name
/// of its own that begins with it.
pub proof fn law_manager_names(cols: Seq<ColumnModel>, i: int, j: int)
    requires
        0 <= i < j < tablecreate::slots_of(cols, cols.len()).len(),
    ensures
        ({
            let s = tablecreate::slots_of(cols, cols.len());
            &&& s[i].group == s[j].group ==> s[i].name != s[j].name
            &&& s[j].name.len() >= s[j].group.len()
            &&& s[j].name.subrange(0, s[j].group.len() as int) == s[j].group
            &&& (forall|k: int| 0 <= k < j ==> (#[trigger] s[k]).group != s[j].group) ==> s[j].name
                == s[j].group
            &&& s[0].name == s[0].group
        }),
{
    let s = tablecreate::slots_of(cols, cols.len());
    let g = s[j].group;
    lemma_slot_names(cols, cols.len(), i);
    lemma_slot_names(cols, cols.len(), j);
    lemma_slot_names(cols, cols.len(), 0);
    assert(tablecreate::group_count(s, s[0].group, 0) == 0);
    let b = tablecreate::group_count(s, g, j as nat);
    reveal_strlit("_");
    if s[i].group == g {
        let a = tablecreate::group_count(s, g, i as nat);
        lemma_count_grows(s, g, i, j);
        let tail = "_"@ + text::decimal(b as int);
        assert(s[j].name =~= g + tail);
        if a == 0 {
            assert(s[i].name.len() < s[j].name.len());
        } else {
            assert(s[i].name =~= g + ("_"@ + text::decimal(a as int)));
            if s[i].name == s[j].name {
                let at = g.len() as int + 1;
                assert(s[i].name.subrange(at, s[i].name.len() as int) =~= text::decimal(a as int));
                assert(s[j].name.subrange(at, s[j].name.len() as int) =~= text::decimal(b as int));
                text::law_decimal_distinct(a, b);
            }
        }
    }
    assert(s[j].name.subrange(0, g.len() as int) =~= g);
    if forall|k: int| 0 <= k < j ==> (#[trigger] s[k]).group != g {
        lemma_count_none(s, g, j as nat);
    }
}

proof fn lemma_count_none(s: Seq<SlotModel>, g: Seq<char>, n: nat)
    requires
        n <= s.len(),
        forall|k: int| 0 <= k < n ==> (#[trigger] s[k]).group != g,
    ensures
        tablecreate::group_count(s, g, n) == 0,
    decreases n,
{
    if n > 0 {
        lemma_count_none(s, g, (n - 1) as nat);
    }
}

} // verus!
