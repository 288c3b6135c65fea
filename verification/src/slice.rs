//! Slices of array values.
use crate::celllaw;
use crate::record;
use crate::record::{ArrayData, ArrayModel, ArrayValue, ElementsModel};
use crate::ssmcell;
use crate::tableread::{ReadFault, TableReadError};
use vstd::prelude::*;

verus! {

/// The slice from `blc` to `trc` (both included) lies within the shape.
pub open spec fn slice_fits(shape: Seq<u32>, blc: Seq<i64>, trc: Seq<i64>) -> bool {
    &&& blc.len() == shape.len()
    &&& trc.len() == shape.len()
    &&& forall|d: int|
        0 <= d < shape.len() ==> 0 <= #[trigger] blc[d] <= trc[d] && trc[d] < shape[d]
}

/// The shape of a slice.
pub open spec fn slice_shape(blc: Seq<i64>, trc: Seq<i64>) -> Seq<u32> {
    Seq::new(blc.len(), |d: int| (trc[d] - blc[d] + 1) as u32)
}

/// The row-major positions of the elements of a slice, over the dimensions
/// from `d` on, given the position `at` over the dimensions before.
pub open spec fn picked(shape: Seq<u32>, blc: Seq<i64>, trc: Seq<i64>, d: nat, at: int) -> Seq<int>
    decreases 2 * (shape.len() - d) + 1, 0int,
{
    if d >= shape.len() {
        seq![at]
    } else {
        picked_row(shape, blc, trc, d, at, blc[d as int] as int)
    }
}

/// The positions whose coordinate in dimension `d` is `c` or more.
pub open spec fn picked_row(
    shape: Seq<u32>,
    blc: Seq<i64>,
    trc: Seq<i64>,
    d: nat,
    at: int,
    c: int,
) -> Seq<int>
    decreases 2 * (shape.len() - d), trc[d as int] - c + 1,
{
    if d >= shape.len() || c > trc[d as int] {
        Seq::empty()
    } else {
        picked(shape, blc, trc, d + 1, at * shape[d as int] + c) + picked_row(
            shape,
            blc,
            trc,
            d,
            at,
            c + 1,
        )
    }
}

/// The elements at the given positions.
pub open spec fn at_positions<T>(s: Seq<T>, idx: Seq<int>) -> Seq<T> {
    idx.map_values(|i: int| s[i])
}

/// The elements at the given positions.
pub open spec fn chosen(e: ElementsModel, idx: Seq<int>) -> ElementsModel {
    match e {
        ElementsModel::Bool(s) => ElementsModel::Bool(at_positions(s, idx)),
        ElementsModel::UChar(s) => ElementsModel::UChar(at_positions(s, idx)),
        ElementsModel::Short(s) => ElementsModel::Short(at_positions(s, idx)),
        ElementsModel::UShort(s) => ElementsModel::UShort(at_positions(s, idx)),
        ElementsModel::Int(s) => ElementsModel::Int(at_positions(s, idx)),
        ElementsModel::UInt(s) => ElementsModel::UInt(at_positions(s, idx)),
        ElementsModel::Int64(s) => ElementsModel::Int64(at_positions(s, idx)),
        ElementsModel::Float(s) => ElementsModel::Float(at_positions(s, idx)),
        ElementsModel::Double(s) => ElementsModel::Double(at_positions(s, idx)),
        ElementsModel::Complex(s) => ElementsModel::Complex(at_positions(s, idx)),
        ElementsModel::DComplex(s) => ElementsModel::DComplex(at_positions(s, idx)),
        ElementsModel::String(s) => ElementsModel::String(at_positions(s, idx)),
    }
}

/// The slice of an array.
pub open spec fn sliced(a: ArrayModel, blc: Seq<i64>, trc: Seq<i64>) -> Result<
    ArrayModel,
    ReadFault,
> {
    if slice_fits(a.shape, blc, trc) {
        Ok(
            ArrayModel {
                shape: slice_shape(blc, trc),
                data: chosen(a.data, picked(a.shape, blc, trc, 0, 0)),
            },
        )
    } else {
        Err(ReadFault::BadSlice(blc, trc, a.shape))
    }
}

/// All positions of a list lie below `n`.
spec fn below(idx: Seq<int>, n: int) -> bool {
    forall|i: int| 0 <= i < idx.len() ==> 0 <= #[trigger] idx[i] < n
}

proof fn lemma_step(shape: Seq<u32>, d: nat, at: int, c: int)
    requires
        d < shape.len(),
        0 <= at < ssmcell::product(shape.take(d as int)),
        0 <= c < shape[d as int],
    ensures
        0 <= at * shape[d as int] + c < ssmcell::product(shape.take(d as int + 1)),
{
    let p = ssmcell::product(shape.take(d as int)) as int;
    let s = shape[d as int] as int;
    assert(shape.take(d as int + 1).drop_last() =~= shape.take(d as int));
    assert(0 <= at * s + c < p * s) by (nonlinear_arith)
        requires
            0 <= at < p,
            0 <= c < s,
    ;
}

proof fn lemma_picked_below(shape: Seq<u32>, blc: Seq<i64>, trc: Seq<i64>, d: nat, at: int)
    requires
        slice_fits(shape, blc, trc),
        d <= shape.len(),
        0 <= at < ssmcell::product(shape.take(d as int)),
    ensures
        below(picked(shape, blc, trc, d, at), ssmcell::product(shape) as int),
    decreases 2 * (shape.len() - d) + 1, 0int,
{
    if d >= shape.len() {
        assert(shape.take(d as int) =~= shape);
    } else {
        assert(0 <= blc[d as int]);
        lemma_row_below(shape, blc, trc, d, at, blc[d as int] as int);
    }
}

proof fn lemma_row_below(shape: Seq<u32>, blc: Seq<i64>, trc: Seq<i64>, d: nat, at: int, c: int)
    requires
        slice_fits(shape, blc, trc),
        d < shape.len(),
        0 <= at < ssmcell::product(shape.take(d as int)),
        0 <= c,
    ensures
        below(picked_row(shape, blc, trc, d, at, c), ssmcell::product(shape) as int),
    decreases 2 * (shape.len() - d), trc[d as int] - c + 1,
{
    if c <= trc[d as int] {
        assert(0 <= blc[d as int] <= trc[d as int] && trc[d as int] < shape[d as int]);
        lemma_step(shape, d, at, c);
        lemma_picked_below(shape, blc, trc, d + 1, at * shape[d as int] + c);
        lemma_row_below(shape, blc, trc, d, at, c + 1);
    }
}

/// Positions as `usize` values.
spec fn positions(s: Seq<usize>) -> Seq<int> {
    s.map_values(|i: usize| i as int)
}

fn visit(
    shape: &Vec<u32>,
    blc: &[i64],
    trc: &[i64],
    d: usize,
    at: usize,
    out: &mut Vec<usize>,
)
    requires
        slice_fits(shape@, blc@, trc@),
        d <= shape@.len(),
        0 <= at < ssmcell::product(shape@.take(d as int)),
        ssmcell::product(shape@) <= usize::MAX,
    ensures
        positions(final(out)@) == positions(old(out)@) + picked(
            shape@,
            blc@,
            trc@,
            d as nat,
            at as int,
        ),
    decreases shape@.len() - d,
{
    let ghost before = out@;
    let n: usize = shape.len();
    if d == n {
        out.push(at);
        assert(positions(out@) =~= positions(before) + seq![at as int]);
        return;
    }
    assert(0 <= blc@[d as int] <= trc@[d as int] && trc@[d as int] < shape@[d as int]);
    let mut c: i64 = blc[d];
    let last: i64 = trc[d];
    let size: usize = shape[d] as usize;
    let ghost all = picked(shape@, blc@, trc@, d as nat, at as int);
    let ghost mut done: Seq<int> = Seq::empty();
    proof {
        assert(positions(before) + done =~= positions(before));
        assert(done + all =~= all);
    }
    while c <= last
        invariant
            slice_fits(shape@, blc@, trc@),
            n == shape@.len(),
            d < n,
            0 <= at < ssmcell::product(shape@.take(d as int)),
            ssmcell::product(shape@) <= usize::MAX,
            0 <= c <= last + 1,
            last == trc@[d as int],
            last < size,
            size == shape@[d as int],
            positions(out@) == positions(before) + done,
            all == done + picked_row(shape@, blc@, trc@, d as nat, at as int, c as int),
        decreases last - c + 1,
    {
        proof {
            lemma_step(shape@, d as nat, at as int, c as int);
            lemma_product_take(shape@, blc@, trc@, d as int + 1);
        }
        proof {
            assert(at * size >= 0) by (nonlinear_arith)
                requires
                    at >= 0,
                    size >= 0,
            ;
        }
        let next: usize = at * size + c as usize;
        let ghost so_far = positions(out@);
        visit(shape, blc, trc, d + 1, next, out);
        proof {
            let p = picked(shape@, blc@, trc@, d as nat + 1, next as int);
            let r = picked_row(shape@, blc@, trc@, d as nat, at as int, c + 1);
            assert(done + (p + r) =~= (done + p) + r);
            assert((positions(before) + done) + p =~= positions(before) + (done + p));
            done = done + p;
        }
        c = c + 1;
    }
    proof {
        assert(done + Seq::<int>::empty() =~= done);
    }
}

/// The products of the leading dimensions are at most the whole product.
proof fn lemma_product_take(shape: Seq<u32>, blc: Seq<i64>, trc: Seq<i64>, k: int)
    requires
        slice_fits(shape, blc, trc),
        0 <= k <= shape.len(),
    ensures
        ssmcell::product(shape.take(k)) <= ssmcell::product(shape),
{
    assert forall|i: int| 0 <= i < shape.len() implies shape[i] > 0 by {
        assert(0 <= blc[i] <= trc[i] && trc[i] < shape[i]);
    }
    ssmcell::lemma_product_grows(shape, k);
}

fn pick<T: Copy>(v: &Vec<T>, idx: &Vec<usize>) -> (r: Vec<T>)
    requires
        below(positions(idx@), v@.len() as int),
    ensures
        r@ == at_positions(v@, positions(idx@)),
{
    let mut out: Vec<T> = Vec::new();
    let mut i: usize = 0;
    while i < idx.len()
        invariant
            i <= idx@.len(),
            below(positions(idx@), v@.len() as int),
            out@.len() == i,
            forall|k: int| 0 <= k < i ==> out@[k] == v@[idx@[k] as int],
        decreases idx@.len() - i,
    {
        assert(positions(idx@)[i as int] == idx@[i as int]);
        out.push(v[idx[i]]);
        i = i + 1;
    }
    assert(out@ =~= at_positions(v@, positions(idx@)));
    out
}

fn pick_texts(v: &Vec<String>, idx: &Vec<usize>) -> (r: Vec<String>)
    requires
        below(positions(idx@), v@.len() as int),
    ensures
        record::texts(r@) == at_positions(record::texts(v@), positions(idx@)),
{
    let mut out: Vec<String> = Vec::new();
    let mut i: usize = 0;
    while i < idx.len()
        invariant
            i <= idx@.len(),
            below(positions(idx@), v@.len() as int),
            out@.len() == i,
            forall|k: int| 0 <= k < i ==> (#[trigger] out@[k])@ == v@[idx@[k] as int]@,
        decreases idx@.len() - i,
    {
        assert(positions(idx@)[i as int] == idx@[i as int]);
        out.push(v[idx[i]].clone());
        i = i + 1;
    }
    assert(record::texts(out@) =~= at_positions(record::texts(v@), positions(idx@)));
    out
}

fn choose_elements(data: &ArrayData, idx: &Vec<usize>) -> (r: ArrayData)
    requires
        below(positions(idx@), celllaw::element_count(data@) as int),
    ensures
        r@ == chosen(data@, positions(idx@)),
{
    match data {
        ArrayData::Bool(v) => ArrayData::Bool(pick(v, idx)),
        ArrayData::UChar(v) => ArrayData::UChar(pick(v, idx)),
        ArrayData::Short(v) => ArrayData::Short(pick(v, idx)),
        ArrayData::UShort(v) => ArrayData::UShort(pick(v, idx)),
        ArrayData::Int(v) => ArrayData::Int(pick(v, idx)),
        ArrayData::UInt(v) => ArrayData::UInt(pick(v, idx)),
        ArrayData::Int64(v) => ArrayData::Int64(pick(v, idx)),
        ArrayData::Float(v) => ArrayData::Float(pick(v, idx)),
        ArrayData::Double(v) => ArrayData::Double(pick(v, idx)),
        ArrayData::Complex(v) => ArrayData::Complex(pick(v, idx)),
        ArrayData::DComplex(v) => ArrayData::DComplex(pick(v, idx)),
        ArrayData::String(v) => ArrayData::String(pick_texts(v, idx)),
    }
}

fn checked_shape(shape: &Vec<u32>, blc: &[i64], trc: &[i64]) -> (r: Option<Vec<u32>>)
    ensures
        match r {
            Some(s) => slice_fits(shape@, blc@, trc@) && s@ == slice_shape(blc@, trc@),
            None => !slice_fits(shape@, blc@, trc@),
        },
{
    let n: usize = shape.len();
    if blc.len() != n || trc.len() != n {
        return None;
    }
    let mut out: Vec<u32> = Vec::new();
    let mut d: usize = 0;
    while d < n
        invariant
            d <= n,
            n == shape@.len(),
            n == blc@.len(),
            n == trc@.len(),
            out@.len() == d,
            forall|k: int|
                0 <= k < d ==> 0 <= #[trigger] blc@[k] <= trc@[k] && trc@[k] < shape@[k] && out@[k]
                    == (trc@[k] - blc@[k] + 1) as u32,
        decreases n - d,
    {
        let b: i64 = blc[d];
        let t: i64 = trc[d];
        if b < 0 || t < b || t >= shape[d] as i64 {
            return None;
        }
        out.push((t - b + 1) as u32);
        d = d + 1;
    }
    assert(out@ =~= slice_shape(blc@, trc@));
    Some(out)
}

/// The slice of an array by inclusive per-dimension `blc`/`trc` (logical
/// row-major dims), flat in logical order.
pub fn slice_array_value(arr: &ArrayValue, blc: &[i64], trc: &[i64]) -> (res: Result<
    ArrayValue,
    TableReadError,
>)
    requires
        ssmcell::product(arr@.shape) <= celllaw::element_count(arr@.data) <= usize::MAX,
    ensures
        match sliced(arr@, blc@, trc@) {
            Ok(m) => res is Ok && res->Ok_0@ == m,
            Err(f) => res is Err && res->Err_0@ == f,
        },
{
    let shape = match checked_shape(&arr.shape, blc, trc) {
        Some(s) => s,
        None => {
            return Err(
                TableReadError::BadSlice(
                    vstd::slice::slice_to_vec(blc),
                    vstd::slice::slice_to_vec(trc),
                    vstd::slice::slice_to_vec(arr.shape.as_slice()),
                ),
            );
        },
    };
    let mut idx: Vec<usize> = Vec::new();
    proof {
        assert(arr@.shape.take(0) =~= Seq::<u32>::empty());
        lemma_picked_below(arr@.shape, blc@, trc@, 0, 0);
    }
    visit(&arr.shape, blc, trc, 0, 0, &mut idx);
    proof {
        assert(positions(idx@) =~= picked(arr@.shape, blc@, trc@, 0, 0));
        assert(below(positions(idx@), celllaw::element_count(arr@.data) as int));
    }
    Ok(ArrayValue { shape, data: choose_elements(&arr.data, &idx) })
}

/// The row-major position of an element with the coordinates `k`, over the
/// dimensions from `d` on, given the position `at` over those before.
pub open spec fn position(shape: Seq<u32>, k: Seq<int>, d: nat, at: int) -> int
    decreases shape.len() - d,
{
    if d >= shape.len() {
        at
    } else {
        position(shape, k, d + 1, at * shape[d as int] + k[d as int])
    }
}

/// The number of elements over the dimensions from `d` on.
pub open spec fn span(shape: Seq<u32>, d: nat) -> int
    decreases shape.len() - d,
{
    if d >= shape.len() {
        1
    } else {
        shape[d as int] * span(shape, d + 1)
    }
}

/// Coordinates within a shape.
pub open spec fn inside(shape: Seq<u32>, k: Seq<int>) -> bool {
    &&& k.len() == shape.len()
    &&& forall|d: int| 0 <= d < shape.len() ==> 0 <= #[trigger] k[d] < shape[d]
}

/// Coordinates in a slice as coordinates in the array.
pub open spec fn shifted(blc: Seq<i64>, k: Seq<int>) -> Seq<int> {
    Seq::new(k.len(), |d: int| blc[d] + k[d])
}

proof fn lemma_position_split(shape: Seq<u32>, k: Seq<int>, d: nat, at: int)
    requires
        inside(shape, k),
        d <= shape.len(),
    ensures
        position(shape, k, d, at) == at * span(shape, d) + position(shape, k, d, 0),
        0 <= position(shape, k, d, 0) < span(shape, d),
    decreases shape.len() - d,
{
    if d < shape.len() {
        let s = shape[d as int] as int;
        let c = k[d as int];
        let n = span(shape, d + 1);
        lemma_position_split(shape, k, d + 1, at * s + c);
        lemma_position_split(shape, k, d + 1, 0 * s + c);
        let r = position(shape, k, d + 1, 0);
        assert(0 * s == 0);
        assert(0 <= c < s);
        assert((at * s + c) * n == at * (s * n) + c * n && 0 <= c * n + r < s * n)
            by (nonlinear_arith)
            requires
                0 <= c < s,
                0 <= r < n,
        ;
    }
}

proof fn lemma_picked_len(shape: Seq<u32>, blc: Seq<i64>, trc: Seq<i64>, d: nat, at: int)
    requires
        slice_fits(shape, blc, trc),
        d <= shape.len(),
    ensures
        picked(shape, blc, trc, d, at).len() == span(slice_shape(blc, trc), d),
    decreases 2 * (shape.len() - d) + 1, 0int,
{
    if d < shape.len() {
        assert(0 <= blc[d as int] <= trc[d as int] && trc[d as int] < shape[d as int]);
        lemma_row_len(shape, blc, trc, d, at, blc[d as int] as int);
        assert(slice_shape(blc, trc)[d as int] == trc[d as int] - blc[d as int] + 1);
    }
}

proof fn lemma_row_len(shape: Seq<u32>, blc: Seq<i64>, trc: Seq<i64>, d: nat, at: int, c: int)
    requires
        slice_fits(shape, blc, trc),
        d < shape.len(),
        c <= trc[d as int] + 1,
    ensures
        picked_row(shape, blc, trc, d, at, c).len() == (trc[d as int] - c + 1) * span(
            slice_shape(blc, trc),
            d + 1,
        ),
    decreases 2 * (shape.len() - d), trc[d as int] - c + 1,
{
    let n = span(slice_shape(blc, trc), d + 1);
    let t = trc[d as int] as int;
    if c <= t {
        lemma_picked_len(shape, blc, trc, d + 1, at * shape[d as int] + c);
        lemma_row_len(shape, blc, trc, d, at, c + 1);
        assert(n + (t - (c + 1) + 1) * n == (t - c + 1) * n) by (nonlinear_arith);
    } else {
        assert(0 * n == 0);
    }
}

/// Element `r` of block `j` of a row of positions.
proof fn lemma_row_element(
    shape: Seq<u32>,
    blc: Seq<i64>,
    trc: Seq<i64>,
    d: nat,
    at: int,
    c: int,
    j: int,
    r: int,
)
    requires
        slice_fits(shape, blc, trc),
        d < shape.len(),
        0 <= j,
        c + j <= trc[d as int],
        0 <= r < span(slice_shape(blc, trc), d + 1),
    ensures
        ({
            let n = span(slice_shape(blc, trc), d + 1);
            let row = picked_row(shape, blc, trc, d, at, c);
            &&& 0 <= j * n + r < row.len()
            &&& row[j * n + r] == picked(
                shape,
                blc,
                trc,
                d + 1,
                at * shape[d as int] + (c + j),
            )[r]
        }),
    decreases j,
{
    let n = span(slice_shape(blc, trc), d + 1);
    let first = picked(shape, blc, trc, d + 1, at * shape[d as int] + c);
    let rest = picked_row(shape, blc, trc, d, at, c + 1);
    lemma_picked_len(shape, blc, trc, d + 1, at * shape[d as int] + c);
    lemma_row_len(shape, blc, trc, d, at, c);
    let t = trc[d as int] as int;
    assert(0 <= j * n + r < (t - c + 1) * n) by (nonlinear_arith)
        requires
            0 <= j <= t - c,
            0 <= r < n,
    ;
    if j > 0 {
        lemma_row_element(shape, blc, trc, d, at, c + 1, j - 1, r);
        assert(j * n + r == n + ((j - 1) * n + r)) by (nonlinear_arith);
        assert((first + rest)[n + ((j - 1) * n + r)] == rest[(j - 1) * n + r]);
    } else {
        assert(0 * n == 0);
        assert((first + rest)[r] == first[r]);
    }
}

proof fn lemma_picked_element(
    shape: Seq<u32>,
    blc: Seq<i64>,
    trc: Seq<i64>,
    k: Seq<int>,
    d: nat,
    at: int,
)
    requires
        slice_fits(shape, blc, trc),
        inside(slice_shape(blc, trc), k),
        d <= shape.len(),
    ensures
        ({
            let p = position(slice_shape(blc, trc), k, d, 0);
            &&& 0 <= p < picked(shape, blc, trc, d, at).len()
            &&& picked(shape, blc, trc, d, at)[p] == position(shape, shifted(blc, k), d, at)
        }),
    decreases shape.len() - d,
{
    let new = slice_shape(blc, trc);
    lemma_position_split(new, k, d, 0);
    lemma_picked_len(shape, blc, trc, d, at);
    if d < shape.len() {
        let c = k[d as int];
        let n = span(new, d + 1);
        assert(0 <= c < new[d as int]);
        assert(0 <= blc[d as int] <= trc[d as int] && trc[d as int] < shape[d as int]);
        lemma_position_split(new, k, d + 1, c);
        assert(0 * new[d as int] + c == c);
        let r = position(new, k, d + 1, 0);
        lemma_row_element(shape, blc, trc, d, at, blc[d as int] as int, c, r);
        let next = at * shape[d as int] + (blc[d as int] + c);
        lemma_picked_element(shape, blc, trc, k, d + 1, next);
        assert(shifted(blc, k)[d as int] == blc[d as int] + c);
    }
}

/// An element of a slice is the element of the array whose coordinates are
/// greater by the slice's start: `picked` lists the array positions in the
/// slice's row-major order.
pub proof fn law_slice_element(shape: Seq<u32>, blc: Seq<i64>, trc: Seq<i64>, k: Seq<int>)
    requires
        slice_fits(shape, blc, trc),
        inside(slice_shape(blc, trc), k),
    ensures
        ({
            let p = position(slice_shape(blc, trc), k, 0, 0);
            let all = picked(shape, blc, trc, 0, 0);
            &&& all.len() == span(slice_shape(blc, trc), 0)
            &&& 0 <= p < all.len()
            &&& all[p] == position(shape, shifted(blc, k), 0, 0)
        }),
{
    lemma_picked_len(shape, blc, trc, 0, 0);
    lemma_picked_element(shape, blc, trc, k, 0, 0);
}

/// Element `i` of one array is element `j` of another, of the same type.
pub open spec fn same_element(a: ElementsModel, i: int, b: ElementsModel, j: int) -> bool {
    match (a, b) {
        (ElementsModel::Bool(s), ElementsModel::Bool(t)) => s[i] == t[j],
        (ElementsModel::UChar(s), ElementsModel::UChar(t)) => s[i] == t[j],
        (ElementsModel::Short(s), ElementsModel::Short(t)) => s[i] == t[j],
        (ElementsModel::UShort(s), ElementsModel::UShort(t)) => s[i] == t[j],
        (ElementsModel::Int(s), ElementsModel::Int(t)) => s[i] == t[j],
        (ElementsModel::UInt(s), ElementsModel::UInt(t)) => s[i] == t[j],
        (ElementsModel::Int64(s), ElementsModel::Int64(t)) => s[i] == t[j],
        (ElementsModel::Float(s), ElementsModel::Float(t)) => s[i] == t[j],
        (ElementsModel::Double(s), ElementsModel::Double(t)) => s[i] == t[j],
        (ElementsModel::Complex(s), ElementsModel::Complex(t)) => s[i] == t[j],
        (ElementsModel::DComplex(s), ElementsModel::DComplex(t)) => s[i] == t[j],
        (ElementsModel::String(s), ElementsModel::String(t)) => s[i] == t[j],
        _ => false,
    }
}

/// The row-major position of coordinates in an array.
pub open spec fn row_major(shape: Seq<u32>, k: Seq<int>) -> int
    decreases k.len(),
{
    if k.len() == 0 {
        0
    } else {
        row_major(shape.drop_last(), k.drop_last()) * shape.last() + k.last()
    }
}

proof fn lemma_row_major(shape: Seq<u32>, k: Seq<int>, d: nat, at: int)
    requires
        k.len() == shape.len(),
        d <= shape.len(),
        at == row_major(shape.take(d as int), k.take(d as int)),
    ensures
        position(shape, k, d, at) == row_major(shape, k),
    decreases shape.len() - d,
{
    if d >= shape.len() {
        assert(shape.take(d as int) =~= shape);
        assert(k.take(d as int) =~= k);
    } else {
        let x = shape.take(d as int + 1);
        let y = k.take(d as int + 1);
        assert(x.drop_last() =~= shape.take(d as int));
        assert(y.drop_last() =~= k.take(d as int));
        lemma_row_major(shape, k, d + 1, at * shape[d as int] + k[d as int]);
    }
}

/// A slice of an array between two corners, both included: there is one where
/// the corners lie in the array and in order; its dimensions are the distances
/// between them; and the element at any coordinates of it is the element of the
/// array at the coordinates greater by the first corner, in row-major order.
pub proof fn law_sliced(a: ArrayModel, blc: Seq<i64>, trc: Seq<i64>, k: Seq<int>)
    ensures
        sliced(a, blc, trc) is Ok <==> blc.len() == a.shape.len() && trc.len() == a.shape.len()
            && forall|d: int|
            0 <= d < a.shape.len() ==> 0 <= #[trigger] blc[d] <= trc[d] && trc[d] < a.shape[d],
        sliced(a, blc, trc) matches Ok(b) ==> {
            &&& b.shape.len() == a.shape.len()
            &&& forall|d: int|
                0 <= d < a.shape.len() ==> #[trigger] b.shape[d] == trc[d] - blc[d] + 1
            &&& k.len() == a.shape.len() && (forall|d: int|
                0 <= d < k.len() ==> 0 <= #[trigger] k[d] <= trc[d] - blc[d]) ==> same_element(
                b.data,
                row_major(b.shape, k),
                a.data,
                row_major(a.shape, Seq::new(k.len(), |d: int| blc[d] + k[d])),
            )
        },
        sliced(a, blc, trc) matches Err(f) ==> f == ReadFault::BadSlice(blc, trc, a.shape),
{
    if let Ok(b) = sliced(a, blc, trc) {
        assert forall|d: int| 0 <= d < a.shape.len() implies #[trigger] b.shape[d] == trc[d]
            - blc[d] + 1 by {
            assert(0 <= blc[d] <= trc[d] && trc[d] < a.shape[d]);
        }
        if k.len() == a.shape.len() && (forall|d: int|
            0 <= d < k.len() ==> 0 <= #[trigger] k[d] <= trc[d] - blc[d]) {
            let new = slice_shape(blc, trc);
            assert forall|d: int| 0 <= d < new.len() implies 0 <= #[trigger] k[d] < new[d] by {
                assert(b.shape[d] == trc[d] - blc[d] + 1);
            }
            law_slice_element(a.shape, blc, trc, k);
            let far = Seq::new(k.len(), |d: int| blc[d] + k[d]);
            assert(shifted(blc, k) =~= far);
            assert(new.take(0) =~= Seq::<u32>::empty());
            assert(a.shape.take(0) =~= Seq::<u32>::empty());
            assert(k.take(0) =~= Seq::<int>::empty());
            assert(far.take(0) =~= Seq::<int>::empty());
            lemma_row_major(new, k, 0, 0);
            lemma_row_major(a.shape, far, 0, 0);
        }
    }
}

} // verus!
