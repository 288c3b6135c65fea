//! What a tiled data manager asks of its column: one array column whose
//! cells have one shape.
use crate::dminfo;
use crate::dmlist;
use crate::record;
use crate::record::{ArrayData, DataType, ElementsModel, RecordValue, ValueModel};
use crate::ssmdata;
use crate::ssmdata::complain;
use crate::table::{CreateFault, TableCreateError};
use crate::tabledesc::{ColumnDesc, ColumnModel, TableDesc, TableDescModel};
use crate::text;
use crate::text::{push_i64, push_u64};
use vstd::prelude::*;

verus! {

/// A shape with its dimensions in the other order.
pub open spec fn stored_shape(shape: Seq<u32>) -> Seq<i64> {
    shape.reverse().map_values(|d: u32| d as i64)
}

/// The stored shape of the first value, from `i` on, that has a shape.
pub open spec fn first_shape(list: Seq<ValueModel>, i: int) -> Seq<i64>
    decreases list.len() - i,
{
    if i < 0 || i >= list.len() {
        Seq::empty()
    } else {
        match list[i] {
            ValueModel::Array(a) => if a.shape.len() > 0 {
                stored_shape(a.shape)
            } else {
                first_shape(list, i + 1)
            },
            _ => first_shape(list, i + 1),
        }
    }
}

/// The shape of a column's cells: that of its description, or else that of
/// the first value that has one.
pub open spec fn cradle(cd: ColumnModel, list: Seq<ValueModel>) -> Seq<i64> {
    match cd.shape {
        Some(s) => if s.len() > 0 {
            s
        } else {
            first_shape(list, 0)
        },
        None => first_shape(list, 0),
    }
}

/// Texts one after the other, with a comma and a blank between them.
pub open spec fn spaced(s: Seq<Seq<char>>, n: nat) -> Seq<char>
    decreases n,
{
    if n == 0 {
        Seq::empty()
    } else if n == 1 {
        s[0]
    } else {
        spaced(s, (n - 1) as nat) + ", "@ + s[n - 1]
    }
}

/// A list of numbers in square brackets.
pub open spec fn listed(s: Seq<i64>) -> Seq<char> {
    "["@ + spaced(dminfo::decimals(s), s.len()) + "]"@
}

/// What is wrong with a value of a tiled column, if anything is.
pub open spec fn misfit(
    table: Seq<char>,
    cd: ColumnModel,
    shape: Seq<i64>,
    v: ValueModel,
) -> Option<CreateFault> {
    match v {
        ValueModel::Array(a) => if cd.data_type != DataType::Bool {
            None
        } else {
            match a.data {
                ElementsModel::Bool(s) => if s.len() != dmlist::dims_product(shape, shape.len()) {
                    Some(
                        CreateFault::NotScalar(
                            ssmdata::complaint(
                                table,
                                cd.name,
                                ": bool cell length "@ + text::decimal(s.len() as int)
                                    + " does not match shape "@ + listed(shape),
                            ),
                        ),
                    )
                } else {
                    None
                },
                _ => Some(
                    CreateFault::NotScalar(
                        ssmdata::complaint(table, cd.name, ": expected a bool array value"@),
                    ),
                ),
            }
        },
        _ => Some(
            CreateFault::NotScalar(
                ssmdata::complaint(table, cd.name, ": expected an array value"@),
            ),
        ),
    }
}

/// What is wrong with the first unfit value from `i` on, if there is one.
pub open spec fn first_misfit(
    table: Seq<char>,
    cd: ColumnModel,
    shape: Seq<i64>,
    list: Seq<ValueModel>,
    i: int,
) -> Option<CreateFault>
    decreases list.len() - i,
{
    if i < 0 || i >= list.len() {
        None
    } else {
        match misfit(table, cd, shape, list[i]) {
            Some(f) => Some(f),
            None => first_misfit(table, cd, shape, list, i + 1),
        }
    }
}

/// The shape of the cells of a tiled manager's column, or why the manager
/// cannot be stored.
pub open spec fn tiled_shape(
    manager_type: Seq<char>,
    desc: TableDescModel,
    values: Seq<Seq<ValueModel>>,
    dm_cols: Seq<usize>,
) -> Result<Seq<i64>, CreateFault> {
    if dm_cols.len() != 1 {
        Err(
            CreateFault::Io(
                manager_type + " with "@ + text::decimal(dm_cols.len() as int)
                    + " columns is not supported (one array column per group)"@,
            ),
        )
    } else {
        let c = dm_cols[0] as int;
        let shape = cradle(desc.columns[c], values[c]);
        match first_misfit(desc.name, desc.columns[c], shape, values[c], 0) {
            Some(f) => Err(f),
            None => Ok(shape),
        }
    }
}

fn stored(shape: &Vec<u32>) -> (r: Vec<i64>)
    ensures
        r@ == stored_shape(shape@),
{
    let n: usize = shape.len();
    let mut out: Vec<i64> = Vec::new();
    let mut i: usize = 0;
    while i < n
        invariant
            i <= n,
            n == shape@.len(),
            out@.len() == i,
            forall|k: int| 0 <= k < i ==> #[trigger] out@[k] == shape@[n - 1 - k],
        decreases n - i,
    {
        out.push(shape[n - 1 - i] as i64);
        i = i + 1;
    }
    assert(out@ =~= stored_shape(shape@));
    out
}

fn find_shape(list: &Vec<RecordValue>) -> (r: Vec<i64>)
    ensures
        r@ == first_shape(record::value_models(list@), 0),
{
    let ghost ms = record::value_models(list@);
    let mut i: usize = 0;
    while i < list.len()
        invariant
            i <= list@.len(),
            ms == record::value_models(list@),
            first_shape(ms, 0) == first_shape(ms, i as int),
        decreases list@.len() - i,
    {
        assert(ms[i as int] == list@[i as int]@);
        if let RecordValue::Array(a) = &list[i] {
            if a.shape.len() > 0 {
                return stored(&a.shape);
            }
        }
        i = i + 1;
    }
    let none: Vec<i64> = Vec::new();
    assert(none@ =~= Seq::<i64>::empty());
    none
}

fn cell_shape(cd: &ColumnDesc, list: &Vec<RecordValue>) -> (r: Vec<i64>)
    ensures
        r@ == cradle(cd@, record::value_models(list@)),
{
    if let Some(s) = &cd.shape {
        if s.len() > 0 {
            return vstd::slice::slice_to_vec(s.as_slice());
        }
    }
    find_shape(list)
}

pub open spec fn magnitude(i: int) -> int {
    if i < 0 {
        -i
    } else {
        i
    }
}

proof fn lemma_product_zero(s: Seq<i64>, k: int, n: nat)
    requires
        0 <= k < n,
        n <= s.len(),
        s[k] == 0,
    ensures
        dmlist::dims_product(s, n) == 0,
    decreases n,
{
    if k < n - 1 {
        lemma_product_zero(s, k, (n - 1) as nat);
        assert(0 * s[n - 1] == 0) by (nonlinear_arith);
    } else {
        let p = dmlist::dims_product(s, (n - 1) as nat);
        assert(p * 0 == 0) by (nonlinear_arith);
    }
}

proof fn lemma_product_grows(s: Seq<i64>, k: nat, n: nat)
    requires
        k <= n <= s.len(),
        forall|i: int| 0 <= i < s.len() ==> #[trigger] s[i] != 0,
    ensures
        magnitude(dmlist::dims_product(s, k)) <= magnitude(dmlist::dims_product(s, n)),
    decreases n,
{
    if k < n {
        lemma_product_grows(s, k, (n - 1) as nat);
        let p = dmlist::dims_product(s, (n - 1) as nat);
        let d = s[n - 1] as int;
        assert(magnitude(p) <= magnitude(p * d)) by (nonlinear_arith)
            requires
                d != 0,
        ;
    }
}

/// Whether `n` is the product of the dimensions.
fn is_product(n: usize, s: &Vec<i64>) -> (r: bool)
    ensures
        r == (n == dmlist::dims_product(s@, s@.len())),
{
    let mut i: usize = 0;
    while i < s.len()
        invariant
            i <= s@.len(),
            forall|k: int| 0 <= k < i ==> #[trigger] s@[k] != 0,
        decreases s@.len() - i,
    {
        if s[i] == 0 {
            proof {
                lemma_product_zero(s@, i as int, s@.len());
            }
            return n == 0;
        }
        i = i + 1;
    }
    let limit: i128 = 0xffff_ffff_ffff_ffff;
    let mut p: i128 = 1;
    let mut j: usize = 0;
    while j < s.len()
        invariant
            j <= s@.len(),
            forall|k: int| 0 <= k < s@.len() ==> #[trigger] s@[k] != 0,
            p == dmlist::dims_product(s@, j as nat),
            limit == 0xffff_ffff_ffff_ffff,
            -limit <= p <= limit,
        decreases s@.len() - j,
    {
        let d: i128 = s[j] as i128;
        assert(-0x8000_0000_0000_0000 <= d <= 0x7fff_ffff_ffff_ffff);
        assert(i128::MIN <= p * d <= i128::MAX) by (nonlinear_arith)
            requires
                -0x8000_0000_0000_0000 <= d <= 0x7fff_ffff_ffff_ffff,
                -0xffff_ffff_ffff_ffff <= p <= 0xffff_ffff_ffff_ffff,
        ;
        p = p * d;
        if p > limit || p < -limit {
            proof {
                lemma_product_grows(s@, (j + 1) as nat, s@.len());
            }
            return false;
        }
        j = j + 1;
    }
    p == n as i128
}

fn push_listed(out: &mut String, s: &Vec<i64>)
    ensures
        final(out)@ == old(out)@ + listed(s@),
{
    out.append("[");
    let ghost start = out@;
    let ghost all = dminfo::decimals(s@);
    let mut i: usize = 0;
    assert(start + spaced(all, 0) =~= start);
    while i < s.len()
        invariant
            i <= s@.len(),
            all == dminfo::decimals(s@),
            out@ == start + spaced(all, i as nat),
        decreases s@.len() - i,
    {
        if i > 0 {
            out.append(", ");
        }
        push_i64(out, s[i]);
        assert(all[i as int] == text::decimal(s@[i as int] as int));
        assert(out@ =~= start + spaced(all, (i + 1) as nat));
        i = i + 1;
    }
    out.append("]");
    assert(out@ =~= old(out)@ + listed(s@));
}

fn value_misfit(table: &str, cd: &ColumnDesc, shape: &Vec<i64>, v: &RecordValue) -> (r: Option<
    TableCreateError,
>)
    ensures
        match misfit(table@, cd@, shape@, v@) {
            Some(f) => r matches Some(e) && e@ == f,
            None => r is None,
        },
{
    match v {
        RecordValue::Array(a) => {
            if cd.data_type != DataType::Bool {
                return None;
            }
            match &a.data {
                ArrayData::Bool(s) => {
                    if is_product(s.len(), shape) {
                        None
                    } else {
                        let mut what: String = String::new();
                        what.append(": bool cell length ");
                        push_u64(&mut what, s.len() as u64);
                        what.append(" does not match shape ");
                        push_listed(&mut what, shape);
                        assert(what@ =~= ": bool cell length "@ + text::decimal(s@.len() as int)
                            + " does not match shape "@ + listed(shape@));
                        Some(
                            TableCreateError::NotScalar(
                                complain(table, cd.name.as_str(), what.as_str()),
                            ),
                        )
                    }
                },
                _ => Some(
                    TableCreateError::NotScalar(
                        complain(table, cd.name.as_str(), ": expected a bool array value"),
                    ),
                ),
            }
        },
        _ => Some(
            TableCreateError::NotScalar(
                complain(table, cd.name.as_str(), ": expected an array value"),
            ),
        ),
    }
}

/// Check the column of a tiled data manager and give the shape of its cells,
/// the dimension that varies fastest first.
pub fn tiled_column(
    manager_type: &str,
    desc: &TableDesc,
    values: &[Vec<RecordValue>],
    dm_cols: &[usize],
) -> (res: Result<Vec<i64>, TableCreateError>)
    requires
        forall|k: int|
            0 <= k < dm_cols@.len() ==> (#[trigger] dm_cols@[k]) < desc@.columns.len()
                && dm_cols@[k] < values@.len(),
    ensures
        match tiled_shape(manager_type@, desc@, ssmdata::value_lists(values@), dm_cols@) {
            Ok(s) => res is Ok && res->Ok_0@ == s,
            Err(f) => res is Err && res->Err_0@ == f,
        },
{
    if dm_cols.len() != 1 {
        let mut s: String = String::new();
        s.append(manager_type);
        s.append(" with ");
        push_u64(&mut s, dm_cols.len() as u64);
        s.append(" columns is not supported (one array column per group)");
        assert(s@ =~= manager_type@ + " with "@ + text::decimal(dm_cols@.len() as int)
            + " columns is not supported (one array column per group)"@);
        return Err(TableCreateError::Io(s));
    }
    let c: usize = dm_cols[0];
    assert(dm_cols@[0] == c);
    let cd = &desc.columns[c];
    let list = &values[c];
    assert(desc@.columns[c as int] == cd@);
    assert(ssmdata::value_lists(values@)[c as int] == record::value_models(list@));
    let shape = cell_shape(cd, list);
    let ghost ms = record::value_models(list@);
    let mut i: usize = 0;
    while i < list.len()
        invariant
            i <= list@.len(),
            ms == record::value_models(list@),
            first_misfit(desc@.name, cd@, shape@, ms, 0) == first_misfit(
                desc@.name,
                cd@,
                shape@,
                ms,
                i as int,
            ),
            tiled_shape(manager_type@, desc@, ssmdata::value_lists(values@), dm_cols@)
                == match first_misfit(desc@.name, cd@, shape@, ms, 0) {
                Some(f) => Err::<Seq<i64>, CreateFault>(f),
                None => Ok(shape@),
            },
        decreases list@.len() - i,
    {
        assert(ms[i as int] == list@[i as int]@);
        if let Some(e) = value_misfit(desc.name.as_str(), cd, &shape, &list[i]) {
            return Err(e);
        }
        i = i + 1;
    }
    Ok(shape)
}

/// A value is an array with a shape.
pub open spec fn has_shape(v: ValueModel) -> bool {
    v matches ValueModel::Array(a) && a.shape.len() > 0
}

proof fn lemma_first_shape(list: Seq<ValueModel>, i: int, k: int)
    requires
        0 <= i <= k <= list.len(),
        forall|j: int| i <= j < k ==> !has_shape(#[trigger] list[j]),
    ensures
        first_shape(list, i) == first_shape(list, k),
    decreases k - i,
{
    if i < k {
        assert(!has_shape(list[i]));
        lemma_first_shape(list, i + 1, k);
    }
}

/// The cells of a tiled column have the shape that the column's description
/// gives. Where it gives none they have that of the first value with a shape,
/// `k`, with the dimensions in the other order; where no value has one they
/// have no dimensions (`k` is then the number of values).
pub proof fn law_cell_shape(cd: ColumnModel, list: Seq<ValueModel>, k: int)
    requires
        0 <= k <= list.len(),
        forall|j: int| 0 <= j < k ==> !has_shape(#[trigger] list[j]),
        k < list.len() ==> has_shape(list[k]),
    ensures
        ({
            let s = cradle(cd, list);
            if cd.shape is Some && cd.shape->0.len() > 0 {
                s == cd.shape->0
            } else if k < list.len() {
                let d = list[k]->Array_0.shape;
                s.len() == d.len() && forall|i: int|
                    0 <= i < d.len() ==> #[trigger] s[i] == d[d.len() - 1 - i]
            } else {
                s.len() == 0
            }
        }),
{
    lemma_first_shape(list, 0, k);
}

/// A value that a tiled column of this cell shape takes: an array, and in a
/// column of truth values one of as many truth values as a cell has.
pub open spec fn fits_tiled(cd: ColumnModel, shape: Seq<i64>, v: ValueModel) -> bool {
    v matches ValueModel::Array(a) && (cd.data_type == DataType::Bool ==> (
    a.data matches ElementsModel::Bool(s) && s.len() == dmlist::dims_product(shape, shape.len())))
}

proof fn lemma_no_misfit(
    table: Seq<char>,
    cd: ColumnModel,
    shape: Seq<i64>,
    list: Seq<ValueModel>,
    i: int,
)
    requires
        0 <= i <= list.len(),
    ensures
        first_misfit(table, cd, shape, list, i) is None == (forall|j: int|
            i <= j < list.len() ==> fits_tiled(cd, shape, #[trigger] list[j])),
    decreases list.len() - i,
{
    if i < list.len() {
        lemma_no_misfit(table, cd, shape, list, i + 1);
        assert(misfit(table, cd, shape, list[i]) is None == fits_tiled(cd, shape, list[i]));
    }
}

/// A tiled manager is stored exactly where it has one column and the column
/// takes all its values; the cells then have the column's cell shape.
pub proof fn law_tiled_accepted(
    manager_type: Seq<char>,
    desc: TableDescModel,
    values: Seq<Seq<ValueModel>>,
    dm_cols: Seq<usize>,
)
    ensures
        ({
            let c = dm_cols[0] as int;
            let shape = cradle(desc.columns[c], values[c]);
            let r = tiled_shape(manager_type, desc, values, dm_cols);
            &&& r is Ok == (dm_cols.len() == 1 && forall|j: int|
                0 <= j < values[c].len() ==> fits_tiled(
                    desc.columns[c],
                    shape,
                    #[trigger] values[c][j],
                ))
            &&& r is Ok ==> r->Ok_0 == shape
        }),
{
    let c = dm_cols[0] as int;
    let shape = cradle(desc.columns[c], values[c]);
    lemma_no_misfit(desc.name, desc.columns[c], shape, values[c], 0);
}

} // verus!
