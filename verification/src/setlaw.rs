//! What reading gives back of written data-manager info.
use crate::aipsio;
use crate::aipsio::{AipsIoFault, Cursor};
use crate::bytes;
use crate::columnset;
use crate::columnset::{
    ColumnSetFault, ColumnSetModel, DmBlobModel, InfoModel, ManagerModel, StandardModel,
};
use crate::recordio;
use crate::recordlaw;
use crate::tabledesc::{ColumnModel, KindModel};
use vstd::prelude::*;

verus! {

spec fn u32s_rest(big: bool, s: Seq<u32>, k: nat) -> Seq<u8>
    decreases s.len() - k,
{
    if k >= s.len() {
        Seq::empty()
    } else {
        aipsio::u32_bytes(big, s[k as int]) + u32s_rest(big, s, k + 1)
    }
}

proof fn lemma_u32s_split(big: bool, s: Seq<u32>, k: nat)
    requires
        k <= s.len(),
    ensures
        columnset::u32s_bytes(big, s, s.len()) == columnset::u32s_bytes(big, s, k) + u32s_rest(
            big,
            s,
            k,
        ),
    decreases s.len() - k,
{
    let b = columnset::u32s_bytes(big, s, k);
    if k < s.len() {
        lemma_u32s_split(big, s, k + 1);
        let x = aipsio::u32_bytes(big, s[k as int]);
        let r = u32s_rest(big, s, k + 1);
        assert((b + x) + r =~= b + (x + r));
    } else {
        assert(b + u32s_rest(big, s, k) =~= b);
    }
}

proof fn lemma_u32s_round_trip(c: Cursor, s: Seq<u32>, k: nat, acc: Seq<u32>)
    requires
        0 <= c.pos,
        k <= s.len(),
        c.holds(u32s_rest(c.big, s, k)),
    ensures
        recordio::elements_at::<u32>(c, (s.len() - k) as nat, acc) == Ok::<
            (Seq<u32>, Cursor),
            (AipsIoFault, Cursor),
        >((acc + s.subrange(k as int, s.len() as int), c.skip(4 * (s.len() - k)))),
    decreases s.len() - k,
{
    let n = s.len();
    if k == n {
        assert(acc + s.subrange(k as int, n as int) =~= acc);
    } else {
        let v = s[k as int];
        bytes::lemma_uint_bytes_len(c.big, v as nat, 4);
        aipsio::lemma_holds_concat(c, aipsio::u32_bytes(c.big, v), u32s_rest(c.big, s, k + 1));
        aipsio::law_u32_round_trip(c, v);
        lemma_u32s_round_trip(c.skip(4), s, k + 1, acc.push(v));
        assert(acc.push(v) + s.subrange(k as int + 1, n as int) =~= acc + s.subrange(
            k as int,
            n as int,
        ));
    }
}

pub proof fn lemma_u32s_len(big: bool, s: Seq<u32>, n: nat)
    ensures
        columnset::u32s_bytes(big, s, n).len() == 4 * n,
    decreases n,
{
    if n > 0 {
        lemma_u32s_len(big, s, (n - 1) as nat);
        bytes::lemma_uint_bytes_len(big, s[n - 1] as nat, 4);
    }
}

/// A list of 32-bit integers is read back.
pub proof fn law_u32s_round_trip(c: Cursor, s: Seq<u32>)
    requires
        0 <= c.pos,
        c.holds(columnset::u32s_bytes(c.big, s, s.len())),
    ensures
        recordio::elements_at::<u32>(c, s.len(), Seq::empty()) == Ok::<
            (Seq<u32>, Cursor),
            (AipsIoFault, Cursor),
        >((s, c.skip(4 * s.len() as int))),
{
    lemma_u32s_split(c.big, s, 0);
    assert(columnset::u32s_bytes(c.big, s, s.len()) =~= u32s_rest(c.big, s, 0));
    lemma_u32s_round_trip(c, s, 0, Seq::empty());
    assert(Seq::<u32>::empty() + s.subrange(0, s.len() as int) =~= s);
}

/// A written block is read back.
pub proof fn law_block_round_trip(c: Cursor, s: Seq<u32>)
    requires
        0 <= c.pos,
        s.len() <= u32::MAX,
        c.holds(columnset::block_bytes(c.big, s)),
    ensures
        columnset::block_at(c) == Ok::<(Seq<u32>, Cursor), (ColumnSetFault, Cursor)>(
            (s, c.skip(columnset::block_bytes(c.big, s).len() as int)),
        ),
{
    reveal(columnset::block_at);
    let big = c.big;
    let n = bytes::low32(s.len() as int);
    let head = aipsio::u32_bytes(big, n);
    let body = columnset::u32s_bytes(big, s, s.len());
    reveal_strlit("Block");
    vstd::utf8::is_ascii_chars_encode_utf8("Block"@);
    aipsio::law_object_round_trip(c, false, "Block"@, 1, head + body);
    let (h, d) = c.object_start(false)->Ok_0;
    aipsio::lemma_holds_concat(d, head, body);
    bytes::lemma_uint_bytes_len(big, n as nat, 4);
    aipsio::law_u32_round_trip(d, n);
    law_u32s_round_trip(d.skip(4), s);
    lemma_u32s_len(big, s, s.len());
}

/// A StandardStMan spec that can be read back.
pub open spec fn standard_storable(m: StandardModel) -> bool {
    &&& recordlaw::short_text(m.data_manager_name)
    &&& m.column_offset.len() <= u32::MAX
    &&& m.col_index_map.len() <= u32::MAX
}

/// A written StandardStMan spec is read back.
pub proof fn law_standard_round_trip(m: StandardModel, manager_type: Seq<char>)
    requires
        standard_storable(m),
    ensures
        columnset::standard_of(columnset::standard_bytes(m), manager_type) == Ok::<
            StandardModel,
            ColumnSetFault,
        >(m),
{
    let blob = columnset::standard_bytes(m);
    let c = Cursor { data: blob, big: true, pos: 0 };
    let a = aipsio::string_bytes(true, m.data_manager_name);
    let b = columnset::block_bytes(true, m.column_offset);
    let e = columnset::block_bytes(true, m.col_index_map);
    assert(blob.subrange(0, blob.len() as int) =~= blob);
    reveal_strlit("SSM");
    vstd::utf8::is_ascii_chars_encode_utf8("SSM"@);
    aipsio::law_object_round_trip(c, true, "SSM"@, 2, a + b + e);
    let (h, d) = c.object_start(true)->Ok_0;
    aipsio::lemma_holds_concat(d, a + b, e);
    aipsio::lemma_holds_concat(d, a, b);
    aipsio::law_string_round_trip(d, m.data_manager_name);
    let d1 = d.skip(a.len() as int);
    law_block_round_trip(d1, m.column_offset);
    let d2 = d1.skip(b.len() as int);
    assert(d2 == d.skip((a + b).len() as int));
    law_block_round_trip(d2, m.col_index_map);
}

/// Version and storage option that go with a row count.
pub open spec fn stored_rows(nrow: u64) -> (u32, u64, Option<(i32, i32)>) {
    if nrow > u32::MAX {
        (3, nrow, Some((2, 0)))
    } else {
        (2, nrow, None)
    }
}

#[verifier::rlimit(40)]
proof fn lemma_rows_round_trip(c: Cursor, nrow: u64)
    requires
        0 <= c.pos,
        c.holds(columnset::rows_bytes(c.big, nrow)),
    ensures
        columnset::rows_at(c) == Ok::<
            ((u32, u64, Option<(i32, i32)>), Cursor),
            (AipsIoFault, Cursor),
        >((stored_rows(nrow), c.skip(columnset::rows_bytes(c.big, nrow).len() as int))),
{
    reveal(columnset::rows_at);
    let big = c.big;
    if nrow > u32::MAX {
        let v = -3i32 as i32;
        let a = aipsio::i32_bytes(big, v);
        let b = aipsio::u64_bytes(big, nrow);
        let d = aipsio::i32_bytes(big, 2);
        let e = aipsio::i32_bytes(big, 0);
        bytes::lemma_uint_bytes_len(big, bytes::pattern32(v) as nat, 4);
        bytes::lemma_uint_bytes_len(big, nrow as nat, 8);
        bytes::lemma_uint_bytes_len(big, bytes::pattern32(2) as nat, 4);
        bytes::lemma_uint_bytes_len(big, bytes::pattern32(0) as nat, 4);
        aipsio::lemma_holds_concat(c, a + b + d, e);
        aipsio::lemma_holds_concat(c, a + b, d);
        aipsio::lemma_holds_concat(c, a, b);
        aipsio::law_i32_round_trip(c, v);
        aipsio::law_u64_round_trip(c.skip(4), nrow);
        aipsio::law_i32_round_trip(c.skip(4).skip(8), 2);
        aipsio::law_i32_round_trip(c.skip(4).skip(8).skip(4), 0);
    } else {
        let v = -2i32 as i32;
        let a = aipsio::i32_bytes(big, v);
        let b = aipsio::u32_bytes(big, nrow as u32);
        bytes::lemma_uint_bytes_len(big, bytes::pattern32(v) as nat, 4);
        bytes::lemma_uint_bytes_len(big, nrow as nat, 4);
        aipsio::lemma_holds_concat(c, a, b);
        aipsio::law_i32_round_trip(c, v);
        aipsio::law_u32_round_trip(c.skip(4), nrow as u32);
    }
}

/// Managers that can be read back: their texts and blobs fit their length
/// fields, and the blob of a StandardStMan manager says something.
#[verifier::opaque]
pub open spec fn managers_storable(dms: Seq<DmBlobModel>) -> bool {
    &&& dms.len() <= u32::MAX
    &&& forall|i: int|
        0 <= i < dms.len() ==> {
            &&& recordlaw::short_text((#[trigger] dms[i]).manager_type)
            &&& dms[i].blob.len() <= u32::MAX
            &&& columnset::blob_of(dms[i].blob, dms[i].manager_type) is Ok
        }
}

/// A manager as it is read back.
pub open spec fn stored_manager(m: DmBlobModel) -> ManagerModel {
    ManagerModel {
        manager_type: m.manager_type,
        sequence_nr: m.sequence_nr,
        blob: columnset::blob_of(m.blob, m.manager_type)->Ok_0,
    }
}

pub open spec fn stored_managers(dms: Seq<DmBlobModel>) -> Seq<ManagerModel> {
    dms.map_values(|m: DmBlobModel| stored_manager(m))
}

spec fn heads_of(dms: Seq<DmBlobModel>) -> Seq<(Seq<char>, u32)> {
    dms.map_values(|m: DmBlobModel| (m.manager_type, m.sequence_nr))
}

spec fn heads_rest(big: bool, dms: Seq<DmBlobModel>, k: nat) -> Seq<u8>
    decreases dms.len() - k,
{
    if k >= dms.len() {
        Seq::empty()
    } else {
        (aipsio::string_bytes(big, dms[k as int].manager_type) + aipsio::u32_bytes(
            big,
            dms[k as int].sequence_nr,
        )) + heads_rest(big, dms, k + 1)
    }
}

proof fn lemma_heads_split(big: bool, dms: Seq<DmBlobModel>, k: nat)
    requires
        k <= dms.len(),
    ensures
        columnset::dm_heads_bytes(big, dms, dms.len()) == columnset::dm_heads_bytes(big, dms, k)
            + heads_rest(big, dms, k),
    decreases dms.len() - k,
{
    let b = columnset::dm_heads_bytes(big, dms, k);
    if k < dms.len() {
        lemma_heads_split(big, dms, k + 1);
        let x = aipsio::string_bytes(big, dms[k as int].manager_type) + aipsio::u32_bytes(
            big,
            dms[k as int].sequence_nr,
        );
        let r = heads_rest(big, dms, k + 1);
        assert((b + x) + r =~= b + (x + r));
    } else {
        assert(b + heads_rest(big, dms, k) =~= b);
    }
}

#[verifier::rlimit(40)]
proof fn lemma_heads_round_trip(
    c: Cursor,
    dms: Seq<DmBlobModel>,
    k: nat,
    acc: Seq<(Seq<char>, u32)>,
)
    requires
        0 <= c.pos,
        k <= dms.len(),
        managers_storable(dms),
        c.holds(heads_rest(c.big, dms, k)),
    ensures
        columnset::managers_at(c, (dms.len() - k) as nat, acc) == Ok::<
            (Seq<(Seq<char>, u32)>, Cursor),
            (AipsIoFault, Cursor),
        >(
            (
                acc + heads_of(dms).subrange(k as int, dms.len() as int),
                c.skip(heads_rest(c.big, dms, k).len() as int),
            ),
        ),
    decreases dms.len() - k,
{
    reveal(managers_storable);
    let n = dms.len();
    if k == n {
        assert(acc + heads_of(dms).subrange(k as int, n as int) =~= acc);
    } else {
        let m = dms[k as int];
        let a = aipsio::string_bytes(c.big, m.manager_type);
        let b = aipsio::u32_bytes(c.big, m.sequence_nr);
        bytes::lemma_uint_bytes_len(c.big, m.sequence_nr as nat, 4);
        aipsio::lemma_holds_concat(c, a + b, heads_rest(c.big, dms, k + 1));
        aipsio::lemma_holds_concat(c, a, b);
        aipsio::law_string_round_trip(c, m.manager_type);
        let c1 = c.skip(a.len() as int);
        aipsio::law_u32_round_trip(c1, m.sequence_nr);
        let c2 = c1.skip(4);
        assert(c2 == c.skip((a + b).len() as int));
        let h = (m.manager_type, m.sequence_nr);
        lemma_heads_round_trip(c2, dms, k + 1, acc.push(h));
        assert(acc.push(h) + heads_of(dms).subrange(k as int + 1, n as int) =~= acc + heads_of(
            dms,
        ).subrange(k as int, n as int));
    }
}

spec fn blobs_rest(big: bool, dms: Seq<DmBlobModel>, k: nat) -> Seq<u8>
    decreases dms.len() - k,
{
    if k >= dms.len() {
        Seq::empty()
    } else {
        aipsio::opaque_bytes(big, dms[k as int].blob) + blobs_rest(big, dms, k + 1)
    }
}

proof fn lemma_blobs_split(big: bool, dms: Seq<DmBlobModel>, k: nat)
    requires
        k <= dms.len(),
    ensures
        columnset::dm_blobs_bytes(big, dms, dms.len()) == columnset::dm_blobs_bytes(big, dms, k)
            + blobs_rest(big, dms, k),
    decreases dms.len() - k,
{
    let b = columnset::dm_blobs_bytes(big, dms, k);
    if k < dms.len() {
        lemma_blobs_split(big, dms, k + 1);
        let x = aipsio::opaque_bytes(big, dms[k as int].blob);
        let r = blobs_rest(big, dms, k + 1);
        assert((b + x) + r =~= b + (x + r));
    } else {
        assert(b + blobs_rest(big, dms, k) =~= b);
    }
}

proof fn lemma_blobs_round_trip(c: Cursor, dms: Seq<DmBlobModel>, k: nat, acc: Seq<ManagerModel>)
    requires
        0 <= c.pos,
        k <= dms.len(),
        managers_storable(dms),
        c.holds(blobs_rest(c.big, dms, k)),
    ensures
        columnset::blobs_at(c, heads_of(dms), k, acc) == Ok::<
            (Seq<ManagerModel>, Cursor),
            (ColumnSetFault, Cursor),
        >(
            (
                acc + stored_managers(dms).subrange(k as int, dms.len() as int),
                c.skip(blobs_rest(c.big, dms, k).len() as int),
            ),
        ),
    decreases dms.len() - k,
{
    reveal(managers_storable);
    let n = dms.len();
    if k == n {
        assert(acc + stored_managers(dms).subrange(k as int, n as int) =~= acc);
    } else {
        let m = dms[k as int];
        let b = aipsio::opaque_bytes(c.big, m.blob);
        aipsio::lemma_holds_concat(c, b, blobs_rest(c.big, dms, k + 1));
        aipsio::law_opaque_round_trip(c, m.blob);
        let s = stored_manager(m);
        assert(heads_of(dms)[k as int] == (m.manager_type, m.sequence_nr));
        lemma_blobs_round_trip(c.skip(b.len() as int), dms, k + 1, acc.push(s));
        assert(acc.push(s) + stored_managers(dms).subrange(k as int + 1, n as int) =~= acc
            + stored_managers(dms).subrange(k as int, n as int));
    }
}

/// The bindings as they are read back.
pub open spec fn stored_infos(cols: Seq<ColumnModel>, seqs: Seq<u32>) -> Seq<InfoModel> {
    Seq::new(
        cols.len(),
        |i: int|
            InfoModel {
                original_name: cols[i].name,
                data_manager_seq: seqs[i],
                shape_column: None,
            },
    )
}

/// Every column has a sequence number, and a name that fits its length field.
#[verifier::opaque]
pub open spec fn bindings_storable(cols: Seq<ColumnModel>, seqs: Seq<u32>) -> bool {
    &&& cols.len() == seqs.len()
    &&& forall|i: int| 0 <= i < cols.len() ==> recordlaw::short_text((#[trigger] cols[i]).name)
}

spec fn bindings_rest(big: bool, cols: Seq<ColumnModel>, seqs: Seq<u32>, k: nat) -> Seq<u8>
    decreases cols.len() - k,
{
    if k >= cols.len() {
        Seq::empty()
    } else {
        columnset::binding_bytes(big, cols[k as int], seqs[k as int]) + bindings_rest(
            big,
            cols,
            seqs,
            k + 1,
        )
    }
}

proof fn lemma_bindings_split(big: bool, cols: Seq<ColumnModel>, seqs: Seq<u32>, k: nat)
    requires
        k <= cols.len(),
    ensures
        columnset::bindings_bytes(big, cols, seqs, cols.len()) == columnset::bindings_bytes(
            big,
            cols,
            seqs,
            k,
        ) + bindings_rest(big, cols, seqs, k),
    decreases cols.len() - k,
{
    let b = columnset::bindings_bytes(big, cols, seqs, k);
    if k < cols.len() {
        lemma_bindings_split(big, cols, seqs, k + 1);
        let x = columnset::binding_bytes(big, cols[k as int], seqs[k as int]);
        let r = bindings_rest(big, cols, seqs, k + 1);
        assert((b + x) + r =~= b + (x + r));
    } else {
        assert(b + bindings_rest(big, cols, seqs, k) =~= b);
    }
}

#[verifier::rlimit(40)]
proof fn lemma_binding_round_trip(c: Cursor, m: ColumnModel, seq: u32)
    requires
        0 <= c.pos,
        recordlaw::short_text(m.name),
        c.holds(columnset::binding_bytes(c.big, m, seq)),
    ensures
        columnset::info_at(c, m.kind) == Ok::<(InfoModel, Cursor), (ColumnSetFault, Cursor)>(
            (
                InfoModel { original_name: m.name, data_manager_seq: seq, shape_column: None },
                c.skip(columnset::binding_bytes(c.big, m, seq).len() as int),
            ),
        ),
{
    reveal(columnset::info_at);
    let big = c.big;
    let a = aipsio::u32_bytes(big, 2);
    let b = aipsio::string_bytes(big, m.name);
    let d = aipsio::u32_bytes(big, 1);
    let e = aipsio::u32_bytes(big, seq);
    let f: Seq<u8> = match m.kind {
        KindModel::Array => aipsio::bool_bytes(false),
        _ => Seq::empty(),
    };
    bytes::lemma_uint_bytes_len(big, 2, 4);
    bytes::lemma_uint_bytes_len(big, 1, 4);
    bytes::lemma_uint_bytes_len(big, seq as nat, 4);
    aipsio::lemma_holds_concat(c, a + b + d + e, f);
    aipsio::lemma_holds_concat(c, a + b + d, e);
    aipsio::lemma_holds_concat(c, a + b, d);
    aipsio::lemma_holds_concat(c, a, b);
    aipsio::law_u32_round_trip(c, 2);
    let c1 = c.skip(4);
    aipsio::law_string_round_trip(c1, m.name);
    let c2 = c1.skip(b.len() as int);
    assert(c2 == c.skip((a + b).len() as int));
    aipsio::law_u32_round_trip(c2, 1);
    let c3 = c2.skip(4);
    assert(c3 == c.skip((a + b + d).len() as int));
    aipsio::law_u32_round_trip(c3, seq);
    let c4 = c3.skip(4);
    assert(c4 == c.skip((a + b + d + e).len() as int));
    if m.kind is Array {
        aipsio::law_bool_round_trip(c4, false);
    }
}

#[verifier::rlimit(40)]
proof fn lemma_bindings_round_trip(
    c: Cursor,
    cols: Seq<ColumnModel>,
    read: Seq<ColumnModel>,
    seqs: Seq<u32>,
    k: nat,
    acc: Seq<InfoModel>,
)
    requires
        0 <= c.pos,
        k <= cols.len(),
        bindings_storable(cols, seqs),
        same_kinds(cols, read),
        c.holds(bindings_rest(c.big, cols, seqs, k)),
    ensures
        columnset::infos_at(c, read, k, acc) == Ok::<
            (Seq<InfoModel>, Cursor),
            (ColumnSetFault, Cursor),
        >(
            (
                acc + stored_infos(cols, seqs).subrange(k as int, cols.len() as int),
                c.skip(bindings_rest(c.big, cols, seqs, k).len() as int),
            ),
        ),
    decreases cols.len() - k,
{
    reveal(bindings_storable);
    let n = cols.len();
    if k == n {
        assert(acc + stored_infos(cols, seqs).subrange(k as int, n as int) =~= acc);
    } else {
        let m = cols[k as int];
        let seq = seqs[k as int];
        let b = columnset::binding_bytes(c.big, m, seq);
        aipsio::lemma_holds_concat(c, b, bindings_rest(c.big, cols, seqs, k + 1));
        lemma_binding_round_trip(c, m, seq);
        let info = stored_infos(cols, seqs)[k as int];
        assert(read[k as int].kind == m.kind);
        lemma_bindings_round_trip(c.skip(b.len() as int), cols, read, seqs, k + 1, acc.push(info));
        assert(acc.push(info) + stored_infos(cols, seqs).subrange(k as int + 1, n as int) =~= acc
            + stored_infos(cols, seqs).subrange(k as int, n as int));
    }
}

/// Two column lists that agree on the kinds of the columns.
pub open spec fn same_kinds(a: Seq<ColumnModel>, b: Seq<ColumnModel>) -> bool {
    &&& a.len() == b.len()
    &&& forall|i: int| 0 <= i < a.len() ==> (#[trigger] a[i]).kind == b[i].kind
}

/// A column set as it is read back.
pub open spec fn stored_column_set(
    nrow: u64,
    seq_count: u32,
    dms: Seq<DmBlobModel>,
    cols: Seq<ColumnModel>,
    seqs: Seq<u32>,
) -> ColumnSetModel {
    ColumnSetModel {
        version: stored_rows(nrow).0,
        nrow,
        storage_option: stored_rows(nrow).2,
        seq_count,
        data_managers: stored_managers(dms),
        columns: stored_infos(cols, seqs),
    }
}

/// A written column set is read back, by a reader that has the same kinds of
/// columns.
#[verifier::rlimit(40)]
pub proof fn law_column_set_round_trip(
    c: Cursor,
    nrow: u64,
    seq_count: u32,
    dms: Seq<DmBlobModel>,
    cols: Seq<ColumnModel>,
    seqs: Seq<u32>,
    read: Seq<ColumnModel>,
)
    requires
        0 <= c.pos,
        managers_storable(dms),
        bindings_storable(cols, seqs),
        same_kinds(cols, read),
        c.holds(columnset::column_set_bytes(c.big, nrow, seq_count, dms, cols, seqs)),
    ensures
        columnset::column_set_at(c, read) == Ok::<
            (ColumnSetModel, Cursor),
            (ColumnSetFault, Cursor),
        >(
            (
                stored_column_set(nrow, seq_count, dms, cols, seqs),
                c.skip(
                    columnset::column_set_bytes(
                        c.big,
                        nrow,
                        seq_count,
                        dms,
                        cols,
                        seqs,
                    ).len() as int,
                ),
            ),
        ),
{
    let big = c.big;
    assert(cols.len() == seqs.len() && dms.len() <= u32::MAX) by {
        reveal(bindings_storable);
        reveal(managers_storable);
    }
    let n = bytes::low32(dms.len() as int);
    let a = columnset::rows_bytes(big, nrow);
    let b = aipsio::u32_bytes(big, seq_count);
    let d = aipsio::u32_bytes(big, n);
    let e = columnset::dm_heads_bytes(big, dms, dms.len());
    let f = columnset::bindings_bytes(big, cols, seqs, cols.len());
    let g = columnset::dm_blobs_bytes(big, dms, dms.len());
    bytes::lemma_uint_bytes_len(big, seq_count as nat, 4);
    bytes::lemma_uint_bytes_len(big, n as nat, 4);
    aipsio::lemma_holds_concat(c, a + b + d + e + f, g);
    aipsio::lemma_holds_concat(c, a + b + d + e, f);
    aipsio::lemma_holds_concat(c, a + b + d, e);
    aipsio::lemma_holds_concat(c, a + b, d);
    aipsio::lemma_holds_concat(c, a, b);
    lemma_rows_round_trip(c, nrow);
    let c1 = c.skip(a.len() as int);
    aipsio::law_u32_round_trip(c1, seq_count);
    let c2 = c1.skip(4);
    assert(c2 == c.skip((a + b).len() as int));
    aipsio::law_u32_round_trip(c2, n);
    let c3 = c2.skip(4);
    assert(c3 == c.skip((a + b + d).len() as int));
    lemma_heads_split(big, dms, 0);
    assert(e =~= heads_rest(big, dms, 0));
    lemma_heads_round_trip(c3, dms, 0, Seq::empty());
    assert(Seq::<(Seq<char>, u32)>::empty() + heads_of(dms).subrange(0, dms.len() as int)
        =~= heads_of(dms));
    let c4 = c3.skip(e.len() as int);
    assert(c4 == c.skip((a + b + d + e).len() as int));
    lemma_bindings_split(big, cols, seqs, 0);
    assert(f =~= bindings_rest(big, cols, seqs, 0));
    lemma_bindings_round_trip(c4, cols, read, seqs, 0, Seq::empty());
    assert(Seq::<InfoModel>::empty() + stored_infos(cols, seqs).subrange(0, cols.len() as int)
        =~= stored_infos(cols, seqs));
    let c5 = c4.skip(f.len() as int);
    assert(c5 == c.skip((a + b + d + e + f).len() as int));
    lemma_blobs_split(big, dms, 0);
    assert(g =~= blobs_rest(big, dms, 0));
    lemma_blobs_round_trip(c5, dms, 0, Seq::empty());
    assert(Seq::<ManagerModel>::empty() + stored_managers(dms).subrange(0, dms.len() as int)
        =~= stored_managers(dms));
}

} // verus!
