//! Row counts changed in place: those of `table.dat` and of the sync records
//! of `table.lock`. All other bytes stay as they are.
use crate::aipsio;
use crate::aipsio::{Cursor, Reader};
use crate::bytes;
use crate::bytes::{push_uint, uint_from};
use crate::columnset;
use crate::columnset::DmBlobModel;
use crate::desclaw;
use crate::ssmfile;
use crate::ssmfile::put_over;
use crate::table;
use crate::tabledesc;
use crate::tabledesc::{parse_table_desc, TableDescModel};
use crate::text::text_eq;
use vstd::prelude::*;

verus! {

/// Where the two row counts of a `table.dat` stand: the `Table` header's and
/// the column set's, each with its width in bytes.
#[derive(Debug, Clone, Copy, PartialEq, Eq)]
pub struct RowFields {
    pub header: usize,
    pub header_width: usize,
    pub set: usize,
    pub set_width: usize,
}

/// The places of [`RowFields`].
pub struct FieldsModel {
    pub header: int,
    pub header_width: int,
    pub set: int,
    pub set_width: int,
}

impl View for RowFields {
    type V = FieldsModel;

    open spec fn view(&self) -> FieldsModel {
        FieldsModel {
            header: self.header as int,
            header_width: self.header_width as int,
            set: self.set as int,
            set_width: self.set_width as int,
        }
    }
}

/// The row count of the column set that starts at the cursor: its place and
/// its width. In the oldest form the leading integer is the count itself.
pub open spec fn set_field(c: Cursor) -> Option<(int, int)> {
    match c.i32() {
        Err(_) => None,
        Ok((v, _)) => if v >= 0 {
            Some((c.pos, 4))
        } else if -v <= 2 {
            Some((c.pos + 4, 4))
        } else {
            Some((c.pos + 4, 8))
        },
    }
}

/// Where the row counts of a `table.dat` stand, where both are found.
pub open spec fn nrow_fields(b: Seq<u8>) -> Option<FieldsModel> {
    match (Cursor { data: b, big: true, pos: 0 }).object_start(true) {
        Err(_) => None,
        Ok((head, c)) => if head.object_type != "Table"@ {
            None
        } else {
            match table::rows_at(c, head.version) {
                Err(_) => None,
                Ok((_, c1)) => match c1.u32() {
                    Err(_) => None,
                    Ok((_, c2)) => match c2.string() {
                        Err(_) => None,
                        Ok((_, c3)) => match tabledesc::table_desc_at(c3) {
                            Err(_) => None,
                            Ok((_, c4)) => match set_field(c4) {
                                None => None,
                                Some((set, set_width)) => if set + set_width > b.len() {
                                    None
                                } else {
                                    Some(
                                        FieldsModel {
                                            header: c.pos,
                                            header_width: if head.version == 2 {
                                                4
                                            } else {
                                                8
                                            },
                                            set,
                                            set_width,
                                        },
                                    )
                                },
                            },
                        },
                    },
                },
            }
        },
    }
}

/// A field of `width` bytes can hold `nrow`.
pub open spec fn fits(nrow: u64, width: int) -> bool {
    width == 8 || nrow <= u32::MAX
}

/// `b` with `nrow` in the `width` bytes from `at` on.
pub open spec fn counted(b: Seq<u8>, at: int, width: int, nrow: u64) -> Seq<u8> {
    ssmfile::overlay(b, at, bytes::uint_bytes(true, nrow as nat, width as nat))
}

/// A `table.dat` with the row count `nrow` in both places.
pub open spec fn nrow_patched(b: Seq<u8>, f: FieldsModel, nrow: u64) -> Seq<u8> {
    counted(counted(b, f.header, f.header_width, nrow), f.set, f.set_width, nrow)
}

/// Why a row count cannot be changed in place.
#[derive(Debug)]
pub enum RowCountError {
    /// The row count is not found.
    NotFound,
    /// So many rows do not fit the field.
    TooMany(u64),
}

/// The two row counts in `table.dat`.
pub fn table_dat_nrow_fields(b: &[u8]) -> (r: Option<RowFields>)
    ensures
        match nrow_fields(b@) {
            Some(f) => r is Some && r->0@ == f,
            None => r is None,
        },
        r matches Some(f) ==> {
            &&& f.header + f.header_width <= b@.len()
            &&& f.set + f.set_width <= b@.len()
            &&& f.header_width == 4 || f.header_width == 8
            &&& f.set_width == 4 || f.set_width == 8
        },
{
    broadcast use aipsio::group_cursor;

    let mut r = Reader::new(b);
    let obj = match r.read_object_start(true) {
        Ok(o) => o,
        Err(_) => {
            return None;
        },
    };
    if !text_eq(obj.object_type.as_str(), "Table") {
        return None;
    }
    let header: usize = r.position();
    let header_width: usize = if obj.version == 2 {
        if r.read_u32().is_err() {
            return None;
        }
        4
    } else if obj.version == 3 {
        if r.read_u64().is_err() {
            return None;
        }
        8
    } else {
        return None;
    };
    assert(header + header_width <= b@.len());
    if r.read_u32().is_err() {
        return None;
    }
    if r.read_string().is_err() {
        return None;
    }
    if parse_table_desc(&mut r).is_err() {
        return None;
    }
    let at: usize = r.position();
    let v: i32 = match r.read_i32() {
        Ok(v) => v,
        Err(_) => {
            return None;
        },
    };
    let end: usize = r.position();
    let set: usize = if v >= 0 {
        at
    } else {
        end
    };
    let set_width: usize = if v >= -2 {
        4
    } else {
        8
    };
    if set > b.len() || b.len() - set < set_width {
        return None;
    }
    Some(RowFields { header, header_width, set, set_width })
}

fn fits_width(nrow: u64, width: usize) -> (r: bool)
    ensures
        r == fits(nrow, width as int),
{
    width == 8 || nrow <= 0xffff_ffff
}

/// Whether both row counts of a `table.dat` can hold `nrow` in place.
pub fn table_dat_nrow_fits(b: &[u8], nrow: u64) -> (r: bool)
    ensures
        r <==> (nrow_fields(b@) matches Some(f) && fits(nrow, f.header_width) && fits(
            nrow,
            f.set_width,
        )),
{
    match table_dat_nrow_fields(b) {
        None => false,
        Some(f) => fits_width(nrow, f.header_width) && fits_width(nrow, f.set_width),
    }
}

fn put_count(b: &mut Vec<u8>, at: usize, width: usize, nrow: u64)
    requires
        at + width <= old(b)@.len(),
        width == 4 || width == 8,
        fits(nrow, width as int),
    ensures
        final(b)@ == counted(old(b)@, at as int, width as int, nrow),
        final(b)@.len() == old(b)@.len(),
{
    let mut piece: Vec<u8> = Vec::new();
    proof {
        bytes::lemma_spans();
        bytes::lemma_uint_bytes_len(true, nrow as nat, width as nat);
    }
    push_uint(&mut piece, true, nrow, width);
    assert(piece@ =~= bytes::uint_bytes(true, nrow as nat, width as nat));
    put_over(b, at, piece.as_slice());
}

/// A `table.dat` with both row counts changed in place (the rest, every
/// column's description included, stays byte-identical).
pub fn patch_table_dat_nrow(b: &[u8], nrow: u64) -> (r: Result<Vec<u8>, RowCountError>)
    ensures
        match nrow_fields(b@) {
            None => r == Err::<Vec<u8>, RowCountError>(RowCountError::NotFound),
            Some(f) => if fits(nrow, f.header_width) && fits(nrow, f.set_width) {
                r is Ok && r->Ok_0@ == nrow_patched(b@, f, nrow)
            } else {
                r == Err::<Vec<u8>, RowCountError>(RowCountError::TooMany(nrow))
            },
        },
{
    let f = match table_dat_nrow_fields(b) {
        None => {
            return Err(RowCountError::NotFound);
        },
        Some(f) => f,
    };
    if !fits_width(nrow, f.header_width) || !fits_width(nrow, f.set_width) {
        return Err(RowCountError::TooMany(nrow));
    }
    let mut out = vstd::slice::slice_to_vec(b);
    put_count(&mut out, f.header, f.header_width, nrow);
    put_count(&mut out, f.set, f.set_width, nrow);
    Ok(out)
}

/// The bytes of a lock file with `nrow` in its sync records from byte `i` on;
/// there are none where it does not fit one of them.
pub open spec fn lock_patched(b: Seq<u8>, i: int, nrow: u64) -> Option<Seq<u8>>
    decreases b.len() - i,
{
    if i + 8 > b.len() {
        Some(b)
    } else if !table::sync_here(b, i) {
        lock_patched(b, i + 1, nrow)
    } else {
        let version = bytes::uint_value(true, b.subrange(i + 4, i + 8));
        if version != 1 && version != 2 {
            lock_patched(b, i + 1, nrow)
        } else {
            let width: int = if version == 1 {
                4
            } else {
                8
            };
            if i + 8 + width > b.len() {
                Some(b)
            } else if !fits(nrow, width) {
                None
            } else {
                lock_patched(counted(b, i + 8, width, nrow), i + 8 + width, nrow)
            }
        }
    }
}

/// The bytes of a lock file with the row count of every sync record changed
/// in place.
pub fn patch_lock_nrrow(b: &[u8], nrow: u64) -> (r: Result<Vec<u8>, RowCountError>)
    ensures
        match lock_patched(b@, 4, nrow) {
            Some(s) => r is Ok && r->Ok_0@ == s,
            None => r == Err::<Vec<u8>, RowCountError>(RowCountError::TooMany(nrow)),
        },
{
    let mut out = vstd::slice::slice_to_vec(b);
    let len: usize = out.len();
    let ghost all = lock_patched(b@, 4, nrow);
    let mut i: usize = 4;
    while i <= len && len - i >= 8
        invariant
            4 <= i,
            len == out@.len(),
            all == lock_patched(b@, 4, nrow),
            all == lock_patched(out@, i as int, nrow),
        decreases len - i,
    {
        if out[i - 4] == 0 && out[i - 3] == 0 && out[i - 2] == 0 && out[i - 1] == 4 && out[i]
            == 0x73 && out[i + 1] == 0x79 && out[i + 2] == 0x6e && out[i + 3] == 0x63 {
            let version: u64 = uint_from(
                true,
                vstd::slice::slice_subrange(out.as_slice(), i + 4, i + 8),
            );
            if version == 1 || version == 2 {
                let width: usize = if version == 1 {
                    4
                } else {
                    8
                };
                if len - i - 8 < width {
                    return Ok(out);
                }
                if !fits_width(nrow, width) {
                    return Err(RowCountError::TooMany(nrow));
                }
                put_count(&mut out, i + 8, width, nrow);
                i = i + 8 + width;
            } else {
                i = i + 1;
            }
        } else {
            i = i + 1;
        }
    }
    Ok(out)
}

proof fn lemma_no_sync(b: Seq<u8>, i: int, found: Option<u64>)
    requires
        forall|j: int| i <= j ==> !#[trigger] table::sync_here(b, j),
    ensures
        table::sync_scan(b, i, found) == found,
    decreases b.len() - i,
{
    if i + 4 <= b.len() {
        lemma_no_sync(b, i + 1, found);
    }
}

proof fn lemma_first_sync(b: Seq<u8>, from: int, at: int, found: Option<u64>)
    requires
        from <= at,
        at + 4 <= b.len(),
        forall|j: int| from <= j < at ==> !#[trigger] table::sync_here(b, j),
    ensures
        table::sync_scan(b, from, found) == table::sync_scan(b, at, found),
    decreases at - from,
{
    if from < at {
        lemma_first_sync(b, from + 1, at, found);
    }
}

proof fn lemma_patched_first(b: Seq<u8>, from: int, at: int, nrow: u64)
    requires
        from <= at,
        at + 8 <= b.len(),
        forall|j: int| from <= j < at ==> !#[trigger] table::sync_here(b, j),
    ensures
        lock_patched(b, from, nrow) == lock_patched(b, at, nrow),
    decreases at - from,
{
    if from < at {
        lemma_patched_first(b, from + 1, at, nrow);
    }
}

proof fn lemma_patched_rest(b: Seq<u8>, from: int, nrow: u64)
    requires
        forall|j: int| from <= j ==> !#[trigger] table::sync_here(b, j),
    ensures
        lock_patched(b, from, nrow) == Some(b),
    decreases b.len() - from,
{
    if from + 8 <= b.len() {
        lemma_patched_rest(b, from + 1, nrow);
    }
}

/// A lock file with one sync record, of either version, is read with the new
/// row count after the count has been changed in place.
pub proof fn law_lock_patched_reads(b: Seq<u8>, at: int, width: int, nrow: u64)
    requires
        table::sync_here(b, at),
        width == 4 || width == 8,
        fits(nrow, width),
        at + 8 + width <= b.len(),
        bytes::uint_value(true, b.subrange(at + 4, at + 8)) == width / 4,
        forall|j: int| j != at ==> !#[trigger] table::sync_here(b, j),
        forall|j: int|
            j != at ==> !#[trigger] table::sync_here(counted(b, at + 8, width, nrow), j),
    ensures
        lock_patched(b, 4, nrow) == Some(counted(b, at + 8, width, nrow)),
        table::sync_scan(counted(b, at + 8, width, nrow), 0, None) == Some(nrow),
{
    let p = counted(b, at + 8, width, nrow);
    let piece = bytes::uint_bytes(true, nrow as nat, width as nat);
    bytes::lemma_spans();
    bytes::lemma_uint_bytes_len(true, nrow as nat, width as nat);
    bytes::law_uint_round_trip(true, nrow as nat, width as nat);
    lemma_patched_first(b, 4, at, nrow);
    lemma_patched_rest(p, at + 8 + width, nrow);
    assert(p.subrange(at + 4, at + 8) =~= b.subrange(at + 4, at + 8));
    assert(p.subrange(at + 8, at + 8 + width) =~= piece);
    lemma_first_sync(p, 0, at, None);
    lemma_no_sync(p, at + 1, Some(nrow));
    assert(table::sync_here(p, at));
}

proof fn lemma_rows_field(b: Seq<u8>, at: int, nrow: u64, n: u64, left: Seq<u8>, right: Seq<u8>)
    requires
        table::header_version(nrow) == table::header_version(n),
        at == left.len(),
        b == left + row_count(nrow) + right,
    ensures
        counted(b, at, row_count(nrow).len() as int, n) == left + row_count(n) + right,
        row_count(nrow).len() == row_count(n).len(),
        row_count(nrow).len() == if nrow > u32::MAX {
            8int
        } else {
            4int
        },
{
    bytes::lemma_uint_bytes_len(true, nrow as nat, 8);
    bytes::lemma_uint_bytes_len(true, nrow as nat, 4);
    bytes::lemma_uint_bytes_len(true, n as nat, 8);
    bytes::lemma_uint_bytes_len(true, n as nat, 4);
    assert(counted(b, at, row_count(nrow).len() as int, n) =~= left + row_count(n) + right);
}

/// A row count as it is written.
pub open spec fn row_count(nrow: u64) -> Seq<u8> {
    if nrow > u32::MAX {
        aipsio::u64_bytes(true, nrow)
    } else {
        aipsio::u32_bytes(true, nrow as u32)
    }
}

/// What stands between the two row counts of a written `table.dat`.
#[verifier::opaque]
spec fn between(big_endian: bool, nrow: u64, d: Seq<u8>) -> Seq<u8> {
    aipsio::u32_bytes(
        true,
        if big_endian {
            0
        } else {
            1
        },
    ) + aipsio::string_bytes(true, "PlainTable"@) + d + aipsio::i32_bytes(
        true,
        if nrow > u32::MAX {
            -3i32 as i32
        } else {
            -2i32 as i32
        },
    )
}

/// What follows the row counts of a written `table.dat`.
#[verifier::opaque]
spec fn behind(nrow: u64, dms: Seq<DmBlobModel>, desc: TableDescModel, seqs: Seq<u32>) -> Seq<u8> {
    (if nrow > u32::MAX {
        aipsio::i32_bytes(true, 2) + aipsio::i32_bytes(true, 0)
    } else {
        Seq::empty()
    }) + (aipsio::u32_bytes(true, bytes::low32(dms.len() as int)) + aipsio::u32_bytes(
        true,
        bytes::low32(dms.len() as int),
    ) + columnset::dm_heads_bytes(true, dms, dms.len()) + columnset::bindings_bytes(
        true,
        desc.columns,
        seqs,
        columnset::paired(desc.columns, seqs),
    ) + columnset::dm_blobs_bytes(true, dms, dms.len()))
}

/// A written `table.dat` in its parts.
#[verifier::rlimit(40)]
proof fn lemma_parts(
    big_endian: bool,
    nrow: u64,
    desc: TableDescModel,
    dms: Seq<DmBlobModel>,
    seqs: Seq<u32>,
    d: Seq<u8>,
) -> (payload: Seq<u8>)
    requires
        tabledesc::table_desc_written(true, desc) == Ok::<Seq<u8>, crate::record::RecordFault>(d),
    ensures
        payload == row_count(nrow) + between(big_endian, nrow, d) + row_count(nrow) + behind(
            nrow,
            dms,
            desc,
            seqs,
        ),
        table::table_dat_bytes(big_endian, nrow, desc, dms, seqs) == Ok::<
            Seq<u8>,
            crate::record::RecordFault,
        >(
            aipsio::object_bytes(
                true,
                true,
                "Table"@,
                table::header_version(nrow),
                payload,
            ),
        ),
{
    reveal(between);
    reveal(behind);
    let f = aipsio::u32_bytes(
        true,
        if big_endian {
            0
        } else {
            1
        },
    );
    let t = aipsio::string_bytes(true, "PlainTable"@);
    let w = row_count(nrow);
    let v = aipsio::i32_bytes(
        true,
        if nrow > u32::MAX {
            -3i32 as i32
        } else {
            -2i32 as i32
        },
    );
    let o = if nrow > u32::MAX {
        aipsio::i32_bytes(true, 2) + aipsio::i32_bytes(true, 0)
    } else {
        Seq::empty()
    };
    assert(columnset::rows_bytes(true, nrow) =~= v + w + o);
    let s1 = aipsio::u32_bytes(true, bytes::low32(dms.len() as int));
    let s3 = columnset::dm_heads_bytes(true, dms, dms.len());
    let s4 = columnset::bindings_bytes(
        true,
        desc.columns,
        seqs,
        columnset::paired(desc.columns, seqs),
    );
    let s5 = columnset::dm_blobs_bytes(true, dms, dms.len());
    lemma_regrouped(w, f, t, d, v, o, s1, s3, s4, s5);
    row_count(nrow) + between(big_endian, nrow, d) + row_count(nrow) + behind(
        nrow,
        dms,
        desc,
        seqs,
    )
}

proof fn lemma_regrouped(
    w: Seq<u8>,
    f: Seq<u8>,
    t: Seq<u8>,
    d: Seq<u8>,
    v: Seq<u8>,
    o: Seq<u8>,
    s1: Seq<u8>,
    s3: Seq<u8>,
    s4: Seq<u8>,
    s5: Seq<u8>,
)
    ensures
        (w + f + t) + d + (v + w + o + s1 + s1 + s3 + s4 + s5) == w + (f + t + d + v) + w + (o + (s1
            + s1 + s3 + s4 + s5)),
{
    assert((w + f + t) + d + (v + w + o + s1 + s1 + s3 + s4 + s5) =~= w + (f + t + d + v) + w + (o
        + (s1 + s1 + s3 + s4 + s5)));
}

proof fn lemma_right_grouped(
    w: Seq<u8>,
    f: Seq<u8>,
    t: Seq<u8>,
    d: Seq<u8>,
    v: Seq<u8>,
    tail: Seq<u8>,
)
    ensures
        w + (f + t + d + v) + w + tail == w + (f + (t + (d + (v + (w + tail))))),
{
    assert(w + (f + t + d + v) + w + tail =~= w + (f + (t + (d + (v + (w + tail))))));
}

/// Where the row counts of a written `table.dat` stand.
#[verifier::spinoff_prover]
#[verifier::rlimit(60)]
proof fn lemma_written_fields(
    big_endian: bool,
    nrow: u64,
    desc: TableDescModel,
    d: Seq<u8>,
    head: Seq<u8>,
    payload: Seq<u8>,
    tail: Seq<u8>,
)
    requires
        desclaw::table_desc_storable(desc),
        tabledesc::table_desc_written(true, desc) == Ok::<Seq<u8>, crate::record::RecordFault>(d),
        head == aipsio::head_bytes(
            true,
            true,
            "Table"@,
            table::header_version(nrow),
            payload.len() as int,
        ),
        payload == row_count(nrow) + between(big_endian, nrow, d) + row_count(nrow) + tail,
    ensures
        nrow_fields(head + payload) == Some(
            FieldsModel {
                header: head.len() as int,
                header_width: row_count(nrow).len() as int,
                set: (head + row_count(nrow) + between(big_endian, nrow, d)).len() as int,
                set_width: row_count(nrow).len() as int,
            },
        ),
{
    let b = head + payload;
    let flag: u32 = if big_endian {
        0
    } else {
        1
    };
    let version: i32 = if nrow > u32::MAX {
        -3i32 as i32
    } else {
        -2i32 as i32
    };
    let h = lemma_started(b, head, payload, nrow);
    lemma_payload(big_endian, nrow, d, tail, flag, version);
    let c0 = Cursor { data: b, big: true, pos: head.len() as int };
    lemma_located(b, h, c0, nrow, flag, desc, d, version, row_count(nrow) + tail);
}

proof fn lemma_started(b: Seq<u8>, head: Seq<u8>, payload: Seq<u8>, nrow: u64) -> (h:
    aipsio::ObjectHead)
    requires
        b == head + payload,
        head == aipsio::head_bytes(
            true,
            true,
            "Table"@,
            table::header_version(nrow),
            payload.len() as int,
        ),
    ensures
        (Cursor { data: b, big: true, pos: 0 }).object_start(true) == Ok::<
            (aipsio::ObjectHead, Cursor),
            (aipsio::AipsIoFault, Cursor),
        >((h, Cursor { data: b, big: true, pos: head.len() as int })),
        h.object_type == "Table"@,
        h.version == table::header_version(nrow),
        (Cursor { data: b, big: true, pos: head.len() as int }).holds(payload),
{
    reveal_strlit("Table");
    vstd::utf8::is_ascii_chars_encode_utf8("Table"@);
    let c = Cursor { data: b, big: true, pos: 0 };
    assert(b.subrange(0, b.len() as int) =~= b);
    aipsio::law_object_round_trip(c, true, "Table"@, table::header_version(nrow), payload);
    c.object_start(true)->Ok_0.0
}

proof fn lemma_payload(
    big_endian: bool,
    nrow: u64,
    d: Seq<u8>,
    tail: Seq<u8>,
    flag: u32,
    version: i32,
)
    requires
        flag == if big_endian {
            0int
        } else {
            1int
        },
        version == if nrow > u32::MAX {
            -3int
        } else {
            -2int
        },
    ensures
        row_count(nrow) + between(big_endian, nrow, d) + row_count(nrow) + tail == row_count(nrow)
            + (aipsio::u32_bytes(true, flag) + (aipsio::string_bytes(true, "PlainTable"@) + (d + (
        aipsio::i32_bytes(true, version) + (row_count(nrow) + tail))))),
        between(big_endian, nrow, d).len() == 4 + aipsio::string_bytes(true, "PlainTable"@).len()
            + d.len() + 4,
{
    reveal(between);
    let w = row_count(nrow);
    let f = aipsio::u32_bytes(true, flag);
    let t = aipsio::string_bytes(true, "PlainTable"@);
    let v = aipsio::i32_bytes(true, version);
    bytes::lemma_uint_bytes_len(true, flag as nat, 4);
    bytes::lemma_uint_bytes_len(true, bytes::pattern32(version) as nat, 4);
    assert(between(big_endian, nrow, d) == f + t + d + v);
    lemma_right_grouped(w, f, t, d, v, tail);
}

#[verifier::spinoff_prover]
#[verifier::rlimit(60)]
proof fn lemma_located(
    b: Seq<u8>,
    head: aipsio::ObjectHead,
    c0: Cursor,
    nrow: u64,
    flag: u32,
    desc: TableDescModel,
    d: Seq<u8>,
    version: i32,
    rest: Seq<u8>,
)
    requires
        (Cursor { data: b, big: true, pos: 0 }).object_start(true) == Ok::<
            (aipsio::ObjectHead, Cursor),
            (aipsio::AipsIoFault, Cursor),
        >((head, c0)),
        head.object_type == "Table"@,
        head.version == table::header_version(nrow),
        c0.data == b,
        0 <= c0.pos,
        c0.big,
        version == if nrow > u32::MAX {
            -3int
        } else {
            -2int
        },
        row_count(nrow).len() <= rest.len(),
        desclaw::table_desc_storable(desc),
        tabledesc::table_desc_written(true, desc) == Ok::<Seq<u8>, crate::record::RecordFault>(d),
        c0.holds(
            row_count(nrow) + (aipsio::u32_bytes(true, flag) + (aipsio::string_bytes(
                true,
                "PlainTable"@,
            ) + (d + (aipsio::i32_bytes(true, version) + rest)))),
        ),
    ensures
        nrow_fields(b) == Some(
            FieldsModel {
                header: c0.pos,
                header_width: row_count(nrow).len() as int,
                set: c0.pos + row_count(nrow).len() + 4 + aipsio::string_bytes(
                    true,
                    "PlainTable"@,
                ).len() + d.len() + 4,
                set_width: row_count(nrow).len() as int,
            },
        ),
{
    let w = row_count(nrow);
    let t = aipsio::string_bytes(true, "PlainTable"@);
    let v = aipsio::i32_bytes(true, version);
    bytes::lemma_uint_bytes_len(true, nrow as nat, 8);
    bytes::lemma_uint_bytes_len(true, nrow as nat, 4);
    lemma_front(c0, nrow, flag, d + (v + rest));
    let c1 = c0.skip(w.len() as int);
    let c2 = c1.skip(4);
    let c3 = c2.skip(t.len() as int);
    lemma_back(c3, desc, d, version, rest);
    let c4 = c3.skip(d.len() as int);
    lemma_fields_found(b, head, c0, c1, c2, c3, c4, (c4.pos + 4, w.len() as int));
}

/// The header of a written `table.dat` is read, from its row count on.
#[verifier::spinoff_prover]
#[verifier::rlimit(60)]
proof fn lemma_front(c0: Cursor, nrow: u64, flag: u32, rest: Seq<u8>)
    requires
        0 <= c0.pos,
        c0.big,
        c0.holds(
            row_count(nrow) + (aipsio::u32_bytes(true, flag) + (aipsio::string_bytes(
                true,
                "PlainTable"@,
            ) + rest)),
        ),
    ensures
        ({
            let c1 = c0.skip(row_count(nrow).len() as int);
            let c2 = c1.skip(4);
            let c3 = c2.skip(aipsio::string_bytes(true, "PlainTable"@).len() as int);
            &&& table::rows_at(c0, table::header_version(nrow)) == Ok::<
                (u64, Cursor),
                (table::TableFault, Cursor),
            >((nrow, c1))
            &&& c1.u32() == Ok::<(u32, Cursor), (aipsio::AipsIoFault, Cursor)>((flag, c2))
            &&& c2.string() == Ok::<(Seq<char>, Cursor), (aipsio::AipsIoFault, Cursor)>(
                ("PlainTable"@, c3),
            )
            &&& c3.holds(rest)
        }),
{
    let w = row_count(nrow);
    let f = aipsio::u32_bytes(true, flag);
    let t = aipsio::string_bytes(true, "PlainTable"@);
    bytes::lemma_uint_bytes_len(true, nrow as nat, 8);
    bytes::lemma_uint_bytes_len(true, nrow as nat, 4);
    bytes::lemma_uint_bytes_len(true, flag as nat, 4);
    reveal_strlit("PlainTable");
    vstd::utf8::is_ascii_chars_encode_utf8("PlainTable"@);
    aipsio::lemma_holds_concat(c0, w, f + (t + rest));
    if nrow > u32::MAX {
        aipsio::law_u64_round_trip(c0, nrow);
    } else {
        aipsio::law_u32_round_trip(c0, nrow as u32);
    }
    let c1 = c0.skip(w.len() as int);
    aipsio::lemma_holds_concat(c1, f, t + rest);
    aipsio::law_u32_round_trip(c1, flag);
    let c2 = c1.skip(4);
    aipsio::lemma_holds_concat(c2, t, rest);
    aipsio::law_string_round_trip(c2, "PlainTable"@);
}

/// The description of a written `table.dat` is read, and the integer behind
/// it.
proof fn lemma_back(c: Cursor, desc: TableDescModel, d: Seq<u8>, version: i32, rest: Seq<u8>)
    requires
        0 <= c.pos,
        c.big,
        desclaw::table_desc_storable(desc),
        tabledesc::table_desc_written(true, desc) == Ok::<Seq<u8>, crate::record::RecordFault>(d),
        c.holds(d + (aipsio::i32_bytes(true, version) + rest)),
    ensures
        tabledesc::table_desc_at(c) matches Ok((_, e)) && e == c.skip(d.len() as int),
        c.skip(d.len() as int).i32() matches Ok((v, _)) && v == version,
        c.pos + d.len() + 4 + rest.len() <= c.data.len(),
{
    let v = aipsio::i32_bytes(true, version);
    bytes::lemma_uint_bytes_len(true, bytes::pattern32(version) as nat, 4);
    aipsio::lemma_holds_concat(c, d, v + rest);
    desclaw::law_table_desc_round_trip(c, desc);
    let c4 = c.skip(d.len() as int);
    aipsio::lemma_holds_concat(c4, v, rest);
    aipsio::law_i32_round_trip(c4, version);
}

#[verifier::rlimit(40)]
proof fn lemma_fields_found(
    b: Seq<u8>,
    head: aipsio::ObjectHead,
    c0: Cursor,
    c1: Cursor,
    c2: Cursor,
    c3: Cursor,
    c4: Cursor,
    set: (int, int),
)
    requires
        (Cursor { data: b, big: true, pos: 0 }).object_start(true) == Ok::<
            (aipsio::ObjectHead, Cursor),
            (aipsio::AipsIoFault, Cursor),
        >((head, c0)),
        head.object_type == "Table"@,
        head.version == 2 || head.version == 3,
        table::rows_at(c0, head.version) matches Ok((_, c)) && c == c1,
        c1.u32() matches Ok((_, c)) && c == c2,
        c2.string() matches Ok((_, c)) && c == c3,
        tabledesc::table_desc_at(c3) matches Ok((_, c)) && c == c4,
        set_field(c4) == Some(set),
        set.0 + set.1 <= b.len(),
    ensures
        nrow_fields(b) == Some(
            FieldsModel {
                header: c0.pos,
                header_width: if head.version == 2 {
                    4
                } else {
                    8
                },
                set: set.0,
                set_width: set.1,
            },
        ),
{
}

/// Changing the row count of a written `table.dat` in place gives the
/// `table.dat` that is written for the new row count, where both counts have
/// the same width.
#[verifier::rlimit(40)]
pub proof fn law_patched_as_written(
    big_endian: bool,
    nrow: u64,
    n: u64,
    desc: TableDescModel,
    dms: Seq<DmBlobModel>,
    seqs: Seq<u32>,
)
    requires
        desclaw::table_desc_storable(desc),
        table::header_version(nrow) == table::header_version(n),
    ensures
        table::table_dat_bytes(big_endian, nrow, desc, dms, seqs) matches Ok(b) && (nrow_fields(b)
            matches Some(f) && fits(n, f.header_width) && fits(n, f.set_width)
            && table::table_dat_bytes(big_endian, n, desc, dms, seqs) == Ok::<
            Seq<u8>,
            crate::record::RecordFault,
        >(nrow_patched(b, f, n))),
{
    desclaw::lemma_table_desc_written(true, desc);
    let d = tabledesc::table_desc_written(true, desc)->Ok_0;
    let p = lemma_parts(big_endian, nrow, desc, dms, seqs, d);
    let q = lemma_parts(big_endian, n, desc, dms, seqs, d);
    let w = row_count(nrow);
    let m = between(big_endian, nrow, d);
    let t = behind(nrow, dms, desc, seqs);
    let head = aipsio::head_bytes(
        true,
        true,
        "Table"@,
        table::header_version(nrow),
        p.len() as int,
    );
    lemma_written_fields(big_endian, nrow, desc, d, head, p, t);
    let b = head + p;
    assert(between(big_endian, n, d) == m && behind(n, dms, desc, seqs) == t) by {
        reveal(between);
        reveal(behind);
    }
    lemma_both_fields(head, w, m, t, nrow, n);
    assert(aipsio::object_bytes(true, true, "Table"@, table::header_version(nrow), p) == b);
    assert(aipsio::object_bytes(true, true, "Table"@, table::header_version(n), q) == head + q);
}

proof fn lemma_both_fields(head: Seq<u8>, w: Seq<u8>, m: Seq<u8>, t: Seq<u8>, nrow: u64, n: u64)
    requires
        table::header_version(nrow) == table::header_version(n),
        w == row_count(nrow),
    ensures
        counted(
            counted(head + (w + m + w + t), head.len() as int, w.len() as int, n),
            (head + w + m).len() as int,
            w.len() as int,
            n,
        ) == head + (row_count(n) + m + row_count(n) + t),
        (w + m + w + t).len() == (row_count(n) + m + row_count(n) + t).len(),
        w.len() == 4 || w.len() == 8,
        fits(n, w.len() as int),
{
    let x = row_count(n);
    let b = head + (w + m + w + t);
    assert(b =~= head + w + (m + w + t));
    lemma_rows_field(b, head.len() as int, nrow, n, head, m + w + t);
    let b1 = head + x + (m + w + t);
    assert(b1 =~= (head + x + m) + w + t);
    lemma_rows_field(b1, (head + x + m).len() as int, nrow, n, head + x + m, t);
    assert((head + x + m) + x + t =~= head + (x + m + x + t));
}

} // verus!
