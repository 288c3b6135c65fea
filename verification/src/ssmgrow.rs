//! Growing a StandardStMan data file in place: new rows get the columns'
//! defaults, and the rows that are there are not encoded again.
//!
//! A partly filled last bucket is topped up, new buckets are appended, and
//! the index is rewritten to name them, in its chain of buckets.
use crate::aipsio;
use crate::bytes;
use crate::bytes::{length32, push_uint, resize, to_pattern32, to_signed32, uint_from};
use crate::columnset::{StandardModel, StandardStMan};
use crate::defaults;
use crate::defaults::default_cell_value;
use crate::record::{DataType, RecordValue, ValueModel};
use crate::recordout;
use crate::ssm;
use crate::ssm::{
    bucket_slice, HeaderNumbers, SsmModel, StandardStManFile, StandardStManHeader,
    DATA_START,
};
use crate::ssmfile;
use crate::ssmfile::put_over;
use crate::ssmout;
use crate::ssmout::{
    encode_array_record, encode_scalar_cell, encode_ssm_index, index_bucket_count, writer,
};
use crate::tabledesc;
use crate::tabledesc::{ColumnDesc, ColumnKind, ColumnModel, KindModel};
use crate::tilepatch;
use vstd::prelude::*;

verus! {

/// A new row's cell in a bucket.
#[derive(Debug)]
pub enum RowDefault {
    /// A bit-packed scalar.
    Bit(bool),
    /// A fixed-size scalar cell.
    Bytes(Vec<u8>),
    /// A fixed-shape array: a record appended to the array file per row,
    /// referenced by an 8-byte offset cell.
    Record(Vec<u8>),
    /// A variable-shape array: an undefined cell (offset 0).
    Null,
}

/// What a [`RowDefault`] says.
pub enum DefaultModel {
    Bit(bool),
    Bytes(Seq<u8>),
    Record(Seq<u8>),
    Null,
}

impl View for RowDefault {
    type V = DefaultModel;

    open spec fn view(&self) -> DefaultModel {
        match *self {
            RowDefault::Bit(b) => DefaultModel::Bit(b),
            RowDefault::Bytes(s) => DefaultModel::Bytes(s@),
            RowDefault::Record(s) => DefaultModel::Record(s@),
            RowDefault::Null => DefaultModel::Null,
        }
    }
}

pub open spec fn default_models(s: Seq<RowDefault>) -> Seq<DefaultModel> {
    s.map_values(|d: RowDefault| d@)
}

/// The bits of a cell in a bucket.
pub open spec fn default_bits(d: DefaultModel) -> int {
    match d {
        DefaultModel::Bit(_) => 1,
        DefaultModel::Bytes(s) => 8 * s.len() as int,
        _ => 64,
    }
}

/// Whether an array column has the option to keep its arrays in the bucket.
pub open spec fn is_direct(cd: ColumnModel) -> bool {
    cd.kind is Array && bytes::pattern32(cd.options) % 2 == 1
}

/// Whether all cells of an array column have one shape with elements.
pub open spec fn is_fixed(cd: ColumnModel) -> bool {
    cd.shape matches Some(s) && s.len() > 0 && forall|i: int|
        0 <= i < s.len() ==> #[trigger] s[i] > 0
}

/// The cell of a new row of a column, where the column can be grown.
pub open spec fn column_default(big: bool, cd: ColumnModel) -> Option<DefaultModel> {
    match cd.kind {
        KindModel::Scalar(v) => match ssmout::scalar_cell(big, cd.data_type, cd.max_length, v) {
            Err(_) => None,
            Ok(cell) => if cd.data_type == DataType::Bool {
                Some(DefaultModel::Bit(cell.len() > 0 && cell[0] != 0))
            } else {
                Some(DefaultModel::Bytes(cell))
            },
        },
        KindModel::Array => if is_direct(cd) || cd.data_type == DataType::String {
            None
        } else if !is_fixed(cd) {
            Some(DefaultModel::Null)
        } else {
            match defaults::default_value(cd) {
                ValueModel::Array(a) => Some(DefaultModel::Record(ssmout::array_bytes(big, a))),
                _ => None,
            }
        },
        KindModel::Record => None,
    }
}

/// The cells of new rows from the column `k` on, after `acc`, where all
/// columns can be grown and their regions lie in the buckets.
pub open spec fn all_defaults(
    big: bool,
    cds: Seq<ColumnModel>,
    offsets: Seq<u32>,
    rpb: u32,
    size: u32,
    k: int,
    acc: Seq<DefaultModel>,
) -> Option<Seq<DefaultModel>>
    decreases cds.len() - k,
{
    if k < 0 || k >= cds.len() {
        Some(acc)
    } else {
        match column_default(big, cds[k]) {
            None => None,
            Some(d) => if offsets[k] + (rpb * default_bits(d) + 7) / 8 > size {
                None
            } else {
                all_defaults(big, cds, offsets, rpb, size, k + 1, acc.push(d))
            },
        }
    }
}

/// Whether a column's default can be encoded as it is.
pub open spec fn default_ready(cd: ColumnModel) -> bool {
    &&& cd.kind matches KindModel::Scalar(v) ==> !recordout::needs_float_cast(cd.data_type, v)
    &&& defaults::default_fits(cd)
}

/// What growing works with: the layout of the buckets, the new cells, and
/// where records are appended to the array file.
pub struct Kit {
    pub big: bool,
    pub rpb: int,
    pub size: int,
    pub offsets: Seq<u32>,
    pub defs: Seq<DefaultModel>,
    /// The length of the array file.
    pub base: int,
    /// Records carry a reference count.
    pub counted: bool,
}

/// A bucket and the records appended to the array file.
#[verifier::ext_equal]
pub struct Sheet {
    pub bucket: Seq<u8>,
    pub arrays: Seq<u8>,
}

impl Kit {
    /// Where the record after `arrays` starts in the array file.
    pub open spec fn record_place(self, arrays: Seq<u8>) -> u64 {
        ((self.base + arrays.len()) % 0x1_0000_0000_0000_0000) as u64
    }

    /// The columns' regions lie in the buckets.
    pub open spec fn ready(self) -> bool {
        &&& self.offsets.len() == self.defs.len()
        &&& 0 < self.rpb <= u32::MAX
        &&& 8 < self.size <= u32::MAX
        &&& forall|c: int|
            0 <= c < self.defs.len() ==> (#[trigger] self.offsets[c]) + (self.rpb * default_bits(
                self.defs[c],
            ) + 7) / 8 <= self.size
    }

    /// A record as it is appended to the array file.
    pub open spec fn counted_record(self, rec: Seq<u8>) -> Seq<u8> {
        (if self.counted {
            aipsio::u32_bytes(self.big, 1)
        } else {
            Seq::empty()
        }) + rec
    }

    /// The cell of column `c` in the row `intra` of a bucket.
    pub open spec fn cell_put(self, s: Sheet, c: int, intra: int) -> Sheet {
        let off = self.offsets[c] as int;
        match self.defs[c] {
            DefaultModel::Bit(v) => Sheet {
                bucket: tilepatch::bit_set(s.bucket, 8 * off + intra, v),
                ..s
            },
            DefaultModel::Bytes(cell) => Sheet {
                bucket: ssmfile::overlay(s.bucket, off + intra * cell.len(), cell),
                ..s
            },
            DefaultModel::Record(rec) => Sheet {
                bucket: ssmfile::overlay(
                    s.bucket,
                    off + intra * 8,
                    aipsio::u64_bytes(self.big, self.record_place(s.arrays)),
                ),
                arrays: s.arrays + self.counted_record(rec),
            },
            DefaultModel::Null => Sheet {
                bucket: ssmfile::overlay(
                    s.bucket,
                    off + intra * 8,
                    bytes::resized(Seq::empty(), 8),
                ),
                ..s
            },
        }
    }

    /// The cells of the first `n` columns in a row.
    pub open spec fn row_put(self, s: Sheet, intra: int, n: nat) -> Sheet
        decreases n,
    {
        if n == 0 {
            s
        } else {
            self.cell_put(self.row_put(s, intra, (n - 1) as nat), n - 1, intra)
        }
    }

    /// `n` rows from the row `from` on.
    pub open spec fn rows_put(self, s: Sheet, from: int, n: nat) -> Sheet
        decreases n,
    {
        if n == 0 {
            s
        } else {
            self.row_put(
                self.rows_put(s, from, (n - 1) as nat),
                from + n - 1,
                self.defs.len(),
            )
        }
    }

    /// The first `n` rows of column `c`.
    pub open spec fn column_put(self, s: Sheet, c: int, n: nat) -> Sheet
        decreases n,
    {
        if n == 0 {
            s
        } else {
            self.cell_put(self.column_put(s, c, (n - 1) as nat), c, n - 1)
        }
    }

    /// Whether a column's cells are the same in all rows.
    pub open spec fn is_plain(self, c: int) -> bool {
        self.defs[c] is Bit || self.defs[c] is Bytes
    }

    /// A new bucket with the plain cells of the first `k` columns in all its
    /// rows.
    pub open spec fn template(self, k: nat) -> Seq<u8>
        decreases k,
    {
        if k == 0 {
            bytes::resized(Seq::empty(), self.size as nat)
        } else {
            let before = self.template((k - 1) as nat);
            if self.is_plain(k - 1) {
                self.column_put(
                    Sheet { bucket: before, arrays: Seq::empty() },
                    k - 1,
                    self.rpb as nat,
                ).bucket
            } else {
                before
            }
        }
    }

    /// A bucket with fresh records for the first `n` rows of the first `k`
    /// columns.
    pub open spec fn records_put(self, s: Sheet, n: nat, k: nat) -> Sheet
        decreases k,
    {
        if k == 0 {
            s
        } else {
            let before = self.records_put(s, n, (k - 1) as nat);
            if self.defs[k - 1] is Record {
                self.column_put(before, k - 1, n)
            } else {
                before
            }
        }
    }

    /// A new bucket of `n` rows, after the records `arrays`.
    pub open spec fn new_bucket(self, arrays: Seq<u8>, n: nat) -> Sheet {
        self.records_put(
            Sheet { bucket: self.template(self.defs.len()), arrays },
            n,
            self.defs.len(),
        )
    }
}

/// What has been grown so far: the buckets to write, the index, the rows and
/// buckets there are, and the records appended.
pub struct Growing {
    pub buckets: Seq<(int, Seq<u8>)>,
    pub last: Seq<u64>,
    pub numbers: Seq<u32>,
    pub row: int,
    pub next: int,
    pub arrays: Seq<u8>,
}

impl Kit {
    /// The last bucket topped up to at most `new` rows.
    pub open spec fn topped(self, data: Seq<u8>, g: Growing, new: int) -> Option<Growing> {
        let n = g.last.len();
        if n == 0 {
            Some(g)
        } else {
            let number = g.numbers[n - 1];
            let start: int = if n >= 2 {
                g.last[n - 2] + 1
            } else {
                0
            };
            let end = ssm::min(start + self.rpb, new);
            if g.last[n - 1] + 1 >= end {
                Some(g)
            } else {
                match ssm::bucket_of(data, self.size as u32, number) {
                    None => None,
                    Some(bucket) => {
                        let s = self.rows_put(
                            Sheet { bucket, arrays: g.arrays },
                            g.row - start,
                            (end - g.row) as nat,
                        );
                        Some(
                            Growing {
                                buckets: g.buckets.push((number as int, s.bucket)),
                                last: g.last.update(n - 1, (end - 1) as u64),
                                row: end,
                                arrays: s.arrays,
                                ..g
                            },
                        )
                    },
                }
            }
        }
    }

    /// New buckets up to `new` rows.
    pub open spec fn extended(self, g: Growing, new: int) -> Growing
        decreases new - g.row,
    {
        if g.row >= new || self.rpb <= 0 {
            g
        } else {
            let n = ssm::min(self.rpb, new - g.row);
            let s = self.new_bucket(g.arrays, n as nat);
            self.extended(
                Growing {
                    buckets: g.buckets.push((g.next, s.bucket)),
                    last: g.last.push((g.row + n - 1) as u64),
                    numbers: g.numbers.push(bytes::low32(g.next)),
                    row: g.row + n,
                    next: g.next + 1,
                    arrays: s.arrays,
                },
                new,
            )
        }
    }
}

/// The numbers of the index buckets in their chain, `k` at most, from `b` on.
pub open spec fn chain_from(data: Seq<u8>, h: StandardStManHeader, k: nat, b: u32) -> Seq<int>
    decreases k,
{
    if k == 0 {
        Seq::empty()
    } else {
        let rest = if h.index_bucket_offset > 0 {
            Seq::empty()
        } else {
            match ssm::bucket_of(data, h.bucket_size, b) {
                None => Seq::empty(),
                Some(bucket) => match ssm::i32_in(bucket, 4, h.big_endian) {
                    Ok(next) => if next >= 0 {
                        chain_from(data, h, (k - 1) as nat, next as u32)
                    } else {
                        Seq::empty()
                    },
                    Err(_) => Seq::empty(),
                },
            }
        };
        seq![b as int] + rest
    }
}

/// The numbers of the index buckets of a file.
pub open spec fn index_chain(data: Seq<u8>, h: StandardStManHeader) -> Seq<int> {
    if h.first_index_bucket < 0 {
        Seq::empty()
    } else {
        chain_from(data, h, h.nr_index_buckets as nat, h.first_index_bucket as u32)
    }
}

/// A chain of `needed` buckets: the first of `chain`, and new ones from
/// `next` on where those are not enough.
pub open spec fn chain_of(chain: Seq<int>, needed: nat, next: int) -> Seq<int> {
    Seq::new(
        needed,
        |i: int|
            if i < chain.len() {
                chain[i]
            } else {
                next + (i - chain.len())
            },
    )
}

/// The index bucket `i` of a stream, in a chain of buckets.
pub open spec fn chained_bucket(
    big: bool,
    stream: Seq<u8>,
    size: int,
    chain: Seq<int>,
    i: int,
) -> Seq<u8> {
    let room = size - 8;
    let next = if i + 1 < chain.len() {
        bytes::signed32(bytes::low32(chain[i + 1]))
    } else {
        -1i32 as i32
    };
    bytes::resized(
        aipsio::i32_bytes(big, -1i32 as i32) + aipsio::i32_bytes(big, next) + stream.subrange(
            i * room,
            ssm::min((i + 1) * room, stream.len() as int),
        ),
        size as nat,
    )
}

/// A header of a version: from version 3 on with an explicit endianness flag.
pub open spec fn header_image(version: u32, big: bool, n: HeaderNumbers) -> Seq<u8> {
    aipsio::object_bytes(
        big,
        true,
        "StandardStMan"@,
        version,
        if version >= 3 {
            aipsio::bool_bytes(big) + ssmfile::numbers_bytes(big, n)
        } else {
            ssmfile::numbers_bytes(big, n)
        },
    )
}

/// The numbers of a header.
pub open spec fn numbers_of(h: StandardStManHeader) -> HeaderNumbers {
    HeaderNumbers {
        bucket_size: h.bucket_size,
        nr_buckets: h.nr_buckets,
        pers_cache_size: h.pers_cache_size,
        n_free_bucket: h.n_free_bucket,
        first_free_bucket: h.first_free_bucket,
        nr_index_buckets: h.nr_index_buckets,
        first_index_bucket: h.first_index_bucket,
        index_bucket_offset: h.index_bucket_offset,
        last_string_bucket: h.last_string_bucket,
        index_length: h.index_length,
        nr_index: h.nr_index,
    }
}

/// The numbers of a grown file's header.
pub open spec fn grown_numbers(
    h: StandardStManHeader,
    next: int,
    chain: Seq<int>,
    stream: int,
) -> HeaderNumbers {
    HeaderNumbers {
        bucket_size: h.bucket_size,
        nr_buckets: next as u32,
        pers_cache_size: h.pers_cache_size,
        n_free_bucket: h.n_free_bucket,
        first_free_bucket: h.first_free_bucket,
        nr_index_buckets: chain.len() as u32,
        first_index_bucket: if chain.len() == 0 {
            -1i32 as i32
        } else {
            bytes::signed32(bytes::low32(chain[0]))
        },
        index_bucket_offset: if chain.len() <= 1 {
            8
        } else {
            0
        },
        last_string_bucket: h.last_string_bucket,
        index_length: bytes::low32(stream),
        nr_index: 1,
    }
}

/// What growing writes: whole buckets by number, the header, and the records
/// appended to the array file.
#[verifier::ext_equal]
pub struct GrownModel {
    pub buckets: Seq<(int, Seq<u8>)>,
    pub header: Seq<u8>,
    pub arrays: Seq<u8>,
    /// The number of buckets.
    pub next: int,
}

/// The length of an array file and whether its records are counted.
pub open spec fn array_end(f0i: Option<Seq<u8>>, big: bool) -> (int, bool) {
    match f0i {
        None => (16, false),
        Some(f) => if f.len() < 16 {
            (16, false)
        } else {
            (f.len() as int, bytes::uint_value(big, f.subrange(0, 4)) > 0)
        },
    }
}

pub open spec fn zeros(s: Seq<u32>) -> bool {
    forall|i: int| 0 <= i < s.len() ==> #[trigger] s[i] == 0
}

/// Whether a file has the layout that can be grown from `old` rows.
pub open spec fn growable(m: SsmModel, manager: StandardModel, columns: nat, old: u64) -> bool {
    &&& m.header.version == 2 || m.header.version == 3
    &&& m.header.nr_index == 1
    &&& m.indices.len() == 1
    &&& manager.column_offset.len() == columns
    &&& zeros(manager.col_index_map)
    &&& m.indices[0].rows_per_bucket > 0
    &&& m.indices[0].last_row.len() == m.indices[0].bucket_number.len()
    &&& (if m.indices[0].last_row.len() == 0 {
        0
    } else {
        m.indices[0].last_row.last() + 1
    }) == old
    &&& m.indices[0].last_row.len() >= 2 ==> m.indices[0].last_row[m.indices[0].last_row.len() - 2]
        < m.indices[0].last_row.last()
    &&& m.header.bucket_size > 8
}

pub open spec fn narrowed(s: Seq<u64>) -> Seq<u32> {
    s.map_values(|v: u64| bytes::low32(v as int))
}

/// Whether all last rows fit 32 bits.
pub open spec fn narrow(s: Seq<u64>) -> bool {
    forall|i: int| 0 <= i < s.len() ==> #[trigger] s[i] <= u32::MAX
}

/// What works for a file.
pub open spec fn kit_of(
    big: bool,
    h: StandardStManHeader,
    rpb: u32,
    offsets: Seq<u32>,
    defs: Seq<DefaultModel>,
    f0i: Option<Seq<u8>>,
) -> Kit {
    Kit {
        big,
        rpb: rpb as int,
        size: h.bucket_size as int,
        offsets,
        defs,
        base: array_end(f0i, big).0,
        counted: array_end(f0i, big).1,
    }
}

/// The index of a file, before it is grown.
pub open spec fn start_of(m: SsmModel, old: u64) -> Growing {
    Growing {
        buckets: Seq::empty(),
        last: m.indices[0].last_row,
        numbers: m.indices[0].bucket_number,
        row: old as int,
        next: m.header.nr_buckets as int,
        arrays: Seq::empty(),
    }
}

/// The buckets of an index stream, in a chain of buckets.
pub open spec fn index_edits(big: bool, stream: Seq<u8>, size: int, chain: Seq<int>) -> Seq<
    (int, Seq<u8>),
> {
    Seq::new(
        chain.len(),
        |i: int| (chain[i], chained_bucket(big, stream, size, chain, i)),
    )
}

/// The number of buckets more than the chain has that an index needs.
pub open spec fn extra_buckets(chain: Seq<int>, needed: int) -> int {
    if needed > chain.len() {
        needed - chain.len()
    } else {
        0
    }
}

/// What is written to put an index into a file with `g` grown.
pub open spec fn index_put(
    h: StandardStManHeader,
    data: Seq<u8>,
    stream: Seq<u8>,
    g: Growing,
) -> Option<GrownModel> {
    let needed = ssmout::pieces(stream.len() as int, h.bucket_size - 8);
    let old = index_chain(data, h);
    let chain = chain_of(old, needed as nat, g.next);
    let next = g.next + extra_buckets(old, needed);
    if next > i32::MAX || stream.len() > u32::MAX {
        None
    } else {
        Some(
            GrownModel {
                buckets: g.buckets + index_edits(
                    h.big_endian,
                    stream,
                    h.bucket_size as int,
                    chain,
                ),
                header: bytes::resized(
                    header_image(
                        h.version,
                        h.big_endian,
                        grown_numbers(h, next, chain, stream.len() as int),
                    ),
                    DATA_START as nat,
                ),
                arrays: g.arrays,
                next,
            },
        )
    }
}

/// What is written once the rows are there: the index and the header. There
/// is nothing where a number does not fit.
pub open spec fn finished(
    h: StandardStManHeader,
    rpb: u32,
    data: Seq<u8>,
    columns: nat,
    g: Growing,
) -> Option<GrownModel> {
    if narrow(g.last) {
        index_put(
            h,
            data,
            ssmout::listed_index(h.big_endian, rpb, columns, narrowed(g.last), g.numbers),
            g,
        )
    } else {
        None
    }
}

/// What is written to grow a data file from `old` to `new` rows, or nothing
/// where the file cannot be grown in place.
pub open spec fn grown(
    data: Seq<u8>,
    f0i: Option<Seq<u8>>,
    big: bool,
    manager: StandardModel,
    cds: Seq<ColumnModel>,
    old: u64,
    new: u64,
) -> Option<GrownModel> {
    match ssm::parsed(data, big) {
        Err(_) => None,
        Ok(m) => if !growable(m, manager, cds.len(), old) || new > 0x1_0000_0000 {
            None
        } else {
            match all_defaults(
                big,
                cds,
                manager.column_offset,
                m.indices[0].rows_per_bucket,
                m.header.bucket_size,
                0,
                Seq::empty(),
            ) {
                None => None,
                Some(defs) => {
                    let kit = kit_of(
                        big,
                        m.header,
                        m.indices[0].rows_per_bucket,
                        manager.column_offset,
                        defs,
                        f0i,
                    );
                    match kit.topped(data, start_of(m, old), new as int) {
                        None => None,
                        Some(g) => finished(
                            m.header,
                            m.indices[0].rows_per_bucket,
                            data,
                            cds.len(),
                            kit.extended(g, new as int),
                        ),
                    }
                },
            }
        },
    }
}

impl RowDefault {
    fn bits(&self) -> (r: u64)
        requires
            self@ matches DefaultModel::Bytes(s) ==> s.len() <= u32::MAX,
        ensures
            r == default_bits(self@),
    {
        match self {
            RowDefault::Bit(_) => 1,
            RowDefault::Bytes(s) => 8 * s.len() as u64,
            _ => 64,
        }
    }
}

fn put_bit(s: &mut Vec<u8>, g: u64, v: bool)
    requires
        g < 8 * old(s)@.len(),
    ensures
        final(s)@ == tilepatch::bit_set(old(s)@, g as int, v),
{
    let n: usize = s.len();
    assert(g / 8 < n);
    let i: usize = (g / 8) as usize;
    let k: u8 = (g % 8) as u8;
    let b: u8 = if v {
        s[i] | (1u8 << k)
    } else {
        s[i] & !(1u8 << k)
    };
    s.set(i, b);
}

/// How the cells of new rows are placed.
struct Filler<'a> {
    big: bool,
    rpb: u32,
    size: u32,
    offsets: &'a [u32],
    defs: Vec<RowDefault>,
    base: usize,
    counted: bool,
}

impl View for Filler<'_> {
    type V = Kit;

    closed spec fn view(&self) -> Kit {
        Kit {
            big: self.big,
            rpb: self.rpb as int,
            size: self.size as int,
            offsets: self.offsets@,
            defs: default_models(self.defs@),
            base: self.base as int,
            counted: self.counted,
        }
    }
}

proof fn lemma_cell_room(rpb: int, len: int, intra: int)
    requires
        0 <= intra < rpb,
        0 <= len,
    ensures
        0 <= intra * len,
        intra * len + len <= rpb * len,
        (rpb * (8 * len) + 7) / 8 == rpb * len,
{
    assert(0 <= intra * len && intra * len + len <= rpb * len) by (nonlinear_arith)
        requires
            0 <= intra < rpb,
            0 <= len,
    ;
    assert(rpb * (8 * len) == 8 * (rpb * len)) by (nonlinear_arith);
}

impl Filler<'_> {
    /// Place the cell of column `c` in the row at `intra` in a bucket.
    fn put_ssm_default(&self, bucket: &mut Vec<u8>, arrays: &mut Vec<u8>, c: usize, intra: u32)
        requires
            self@.ready(),
            c < self@.defs.len(),
            intra < self@.rpb,
            old(bucket)@.len() == self@.size,
        ensures
            (Sheet { bucket: final(bucket)@, arrays: final(arrays)@ }) == self@.cell_put(
                Sheet { bucket: old(bucket)@, arrays: old(arrays)@ },
                c as int,
                intra as int,
            ),
            final(bucket)@.len() == self@.size,
    {
        let off: u64 = self.offsets[c] as u64;
        assert(self@.offsets[c as int] == off);
        assert(self@.defs[c as int] == self.defs@[c as int]@);
        match &self.defs[c] {
            RowDefault::Bit(v) => {
                put_bit(bucket, 8 * off + intra as u64, *v);
            },
            RowDefault::Bytes(cell) => {
                proof {
                    lemma_cell_room(self.rpb as int, cell@.len() as int, intra as int);
                }
                put_over(
                    bucket,
                    (off + intra as u64 * cell.len() as u64) as usize,
                    cell.as_slice(),
                );
            },
            RowDefault::Record(rec) => {
                proof {
                    lemma_cell_room(self.rpb as int, 8, intra as int);
                }
                let mut w = writer(self.big);
                w.put_u64((self.base as u64).wrapping_add(arrays.len() as u64));
                let place = w.into_bytes();
                assert(place@ =~= aipsio::u64_bytes(self.big, self@.record_place(arrays@)));
                proof {
                    bytes::lemma_uint_bytes_len(
                        self.big,
                        self@.record_place(arrays@) as nat,
                        8,
                    );
                }
                put_over(bucket, (off + intra as u64 * 8) as usize, place.as_slice());
                let ghost before = arrays@;
                if self.counted {
                    push_uint(arrays, self.big, 1, 4);
                }
                arrays.extend_from_slice(rec.as_slice());
                assert(arrays@ =~= before + self@.counted_record(rec@));
            },
            RowDefault::Null => {
                proof {
                    lemma_cell_room(self.rpb as int, 8, intra as int);
                }
                let none: Vec<u8> = Vec::new();
                let zeros = resize(none.as_slice(), 8);
                assert(none@ =~= Seq::<u8>::empty());
                put_over(bucket, (off + intra as u64 * 8) as usize, zeros.as_slice());
            },
        }
    }
}

impl Filler<'_> {
    /// Place the cells of all columns in a row.
    fn put_row(&self, bucket: &mut Vec<u8>, arrays: &mut Vec<u8>, intra: u32)
        requires
            self@.ready(),
            intra < self@.rpb,
            old(bucket)@.len() == self@.size,
        ensures
            (Sheet { bucket: final(bucket)@, arrays: final(arrays)@ }) == self@.row_put(
                Sheet { bucket: old(bucket)@, arrays: old(arrays)@ },
                intra as int,
                self@.defs.len(),
            ),
            final(bucket)@.len() == self@.size,
    {
        let ghost s = Sheet { bucket: bucket@, arrays: arrays@ };
        let mut c: usize = 0;
        while c < self.defs.len()
            invariant
                self@.ready(),
                intra < self@.rpb,
                bucket@.len() == self@.size,
                c <= self.defs@.len(),
                self@.defs.len() == self.defs@.len(),
                (Sheet { bucket: bucket@, arrays: arrays@ }) == self@.row_put(
                    s,
                    intra as int,
                    c as nat,
                ),
            decreases self.defs@.len() - c,
        {
            self.put_ssm_default(bucket, arrays, c, intra);
            c = c + 1;
        }
    }

    /// Place `n` rows from the row `from` on.
    fn put_rows(&self, bucket: &mut Vec<u8>, arrays: &mut Vec<u8>, from: u32, n: u32)
        requires
            self@.ready(),
            from + n <= self@.rpb,
            old(bucket)@.len() == self@.size,
        ensures
            (Sheet { bucket: final(bucket)@, arrays: final(arrays)@ }) == self@.rows_put(
                Sheet { bucket: old(bucket)@, arrays: old(arrays)@ },
                from as int,
                n as nat,
            ),
            final(bucket)@.len() == self@.size,
    {
        let ghost s = Sheet { bucket: bucket@, arrays: arrays@ };
        let mut i: u32 = 0;
        while i < n
            invariant
                self@.ready(),
                from + n <= self@.rpb,
                bucket@.len() == self@.size,
                i <= n,
                (Sheet { bucket: bucket@, arrays: arrays@ }) == self@.rows_put(
                    s,
                    from as int,
                    i as nat,
                ),
            decreases n - i,
        {
            self.put_row(bucket, arrays, from + i);
            i = i + 1;
        }
    }

    /// Place the first `n` rows of column `c`.
    fn put_column(&self, bucket: &mut Vec<u8>, arrays: &mut Vec<u8>, c: usize, n: u32)
        requires
            self@.ready(),
            c < self@.defs.len(),
            n <= self@.rpb,
            old(bucket)@.len() == self@.size,
        ensures
            (Sheet { bucket: final(bucket)@, arrays: final(arrays)@ }) == self@.column_put(
                Sheet { bucket: old(bucket)@, arrays: old(arrays)@ },
                c as int,
                n as nat,
            ),
            final(bucket)@.len() == self@.size,
    {
        let ghost s = Sheet { bucket: bucket@, arrays: arrays@ };
        let mut i: u32 = 0;
        while i < n
            invariant
                self@.ready(),
                c < self@.defs.len(),
                n <= self@.rpb,
                bucket@.len() == self@.size,
                i <= n,
                (Sheet { bucket: bucket@, arrays: arrays@ }) == self@.column_put(
                    s,
                    c as int,
                    i as nat,
                ),
            decreases n - i,
        {
            self.put_ssm_default(bucket, arrays, c, i);
            i = i + 1;
        }
    }

    /// A new bucket with the plain cells in all its rows.
    fn make_template(&self) -> (r: Vec<u8>)
        requires
            self@.ready(),
        ensures
            r@ == self@.template(self@.defs.len()),
            r@.len() == self@.size,
    {
        let none: Vec<u8> = Vec::new();
        assert(none@ =~= Seq::<u8>::empty());
        let mut bucket = resize(none.as_slice(), self.size as usize);
        let mut c: usize = 0;
        while c < self.defs.len()
            invariant
                self@.ready(),
                bucket@.len() == self@.size,
                self@.rpb == self.rpb,
                c <= self.defs@.len(),
                self@.defs == default_models(self.defs@),
                bucket@ == self@.template(c as nat),
            decreases self.defs@.len() - c,
        {
            assert(self@.defs[c as int] == self.defs@[c as int]@);
            let plain = match &self.defs[c] {
                RowDefault::Bit(_) => true,
                RowDefault::Bytes(_) => true,
                _ => false,
            };
            if plain {
                let mut unused: Vec<u8> = Vec::new();
                assert(unused@ =~= Seq::<u8>::empty());
                self.put_column(&mut bucket, &mut unused, c, self.rpb);
            }
            c = c + 1;
        }
        bucket
    }

    /// A new bucket of `n` rows.
    fn make_bucket(&self, template: &Vec<u8>, arrays: &mut Vec<u8>, n: u32) -> (r: Vec<u8>)
        requires
            self@.ready(),
            n <= self@.rpb,
            template@ == self@.template(self@.defs.len()),
            template@.len() == self@.size,
        ensures
            (Sheet { bucket: r@, arrays: final(arrays)@ }) == self@.new_bucket(
                old(arrays)@,
                n as nat,
            ),
            r@.len() == self@.size,
    {
        let ghost s = Sheet { bucket: template@, arrays: arrays@ };
        let mut bucket = template.clone();
        assert(bucket@ =~= template@);
        let mut c: usize = 0;
        while c < self.defs.len()
            invariant
                self@.ready(),
                n <= self@.rpb,
                bucket@.len() == self@.size,
                c <= self.defs@.len(),
                self@.defs == default_models(self.defs@),
                (Sheet { bucket: bucket@, arrays: arrays@ }) == self@.records_put(
                    s,
                    n as nat,
                    c as nat,
                ),
            decreases self.defs@.len() - c,
        {
            assert(self@.defs[c as int] == self.defs@[c as int]@);
            let is_record = match &self.defs[c] {
                RowDefault::Record(_) => true,
                _ => false,
            };
            if is_record {
                self.put_column(&mut bucket, arrays, c, n);
            }
            c = c + 1;
        }
        bucket
    }
}

/// A bucket to be written.
#[derive(Debug)]
pub struct BucketEdit {
    pub number: u32,
    pub bytes: Vec<u8>,
}

/// The buckets to be written, as number and bytes.
pub open spec fn edit_models(s: Seq<BucketEdit>) -> Seq<(int, Seq<u8>)> {
    s.map_values(|e: BucketEdit| (e.number as int, e.bytes@))
}

/// What has been grown so far.
struct Progress {
    buckets: Vec<BucketEdit>,
    last: Vec<u64>,
    numbers: Vec<u32>,
    row: u64,
    next: u32,
    arrays: Vec<u8>,
}

impl View for Progress {
    type V = Growing;

    closed spec fn view(&self) -> Growing {
        Growing {
            buckets: edit_models(self.buckets@),
            last: self.last@,
            numbers: self.numbers@,
            row: self.row as int,
            next: self.next as int,
            arrays: self.arrays@,
        }
    }
}

impl Kit {
    /// Growing never makes fewer buckets.
    pub proof fn lemma_extended_next(self, g: Growing, new: int)
        ensures
            self.extended(g, new).next >= g.next,
        decreases new - g.row,
    {
        if g.row < new && self.rpb > 0 {
            let n = ssm::min(self.rpb, new - g.row);
            let s = self.new_bucket(g.arrays, n as nat);
            self.lemma_extended_next(
                Growing {
                    buckets: g.buckets.push((g.next, s.bucket)),
                    last: g.last.push((g.row + n - 1) as u64),
                    numbers: g.numbers.push(bytes::low32(g.next)),
                    row: g.row + n,
                    next: g.next + 1,
                    arrays: s.arrays,
                },
                new,
            );
        }
    }
}

impl Filler<'_> {
    /// Top up a partly filled last bucket.
    fn top_up(&self, data: &[u8], g: &mut Progress, new: u64) -> (r: Option<()>)
        requires
            self@.ready(),
            old(g)@.last.len() == old(g)@.numbers.len(),
            old(g)@.last.len() >= 1 ==> old(g)@.last.last() + 1 == old(g)@.row,
            old(g)@.last.len() >= 2 ==> old(g)@.last[old(g)@.last.len() - 2] < old(g)@.last.last(),
        ensures
            match self@.topped(data@, old(g)@, new as int) {
                Some(m) => r is Some && final(g)@ == m,
                None => r is None,
            },
    {
        let n: usize = g.last.len();
        if n == 0 {
            return Some(());
        }
        let number: u32 = g.numbers[n - 1];
        let start: u64 = if n >= 2 {
            g.last[n - 2] + 1
        } else {
            0
        };
        let end: u64 = if start >= new || new - start <= self.rpb as u64 {
            new
        } else {
            start + self.rpb as u64
        };
        assert(end == ssm::min(start + self@.rpb, new as int));
        if g.row >= end {
            return Some(());
        }
        let mut bucket = match bucket_slice(data, self.size, number) {
            None => {
                return None;
            },
            Some(b) => vstd::slice::slice_to_vec(b),
        };
        let ghost before = *g;
        self.put_rows(
            &mut bucket,
            &mut g.arrays,
            (g.row - start) as u32,
            (end - g.row) as u32,
        );
        g.buckets.push(BucketEdit { number, bytes: bucket });
        g.last.set(n - 1, end - 1);
        g.row = end;
        assert(edit_models(g.buckets@) =~= edit_models(before.buckets@).push(
            (number as int, bucket@),
        ));
        Some(())
    }

    /// Append buckets up to `new` rows.
    fn extend(&self, g: &mut Progress, new: u64) -> (r: Option<()>)
        requires
            self@.ready(),
        ensures
            r is Some ==> final(g)@ == self@.extended(old(g)@, new as int),
            r is Some <==> self@.extended(old(g)@, new as int).next <= i32::MAX,
    {
        let template = self.make_template();
        let ghost all = self@.extended(g@, new as int);
        while g.row < new
            invariant
                self@.ready(),
                self@.rpb == self.rpb,
                template@ == self@.template(self@.defs.len()),
                template@.len() == self@.size,
                all == self@.extended(old(g)@, new as int),
                all == self@.extended(g@, new as int),
            decreases new - g.row,
        {
            if g.next >= 0x7fff_ffff {
                proof {
                    let n = ssm::min(self@.rpb, new - g.row);
                    let s = self@.new_bucket(g@.arrays, n as nat);
                    self@.lemma_extended_next(
                        Growing {
                            buckets: g@.buckets.push((g@.next, s.bucket)),
                            last: g@.last.push((g@.row + n - 1) as u64),
                            numbers: g@.numbers.push(bytes::low32(g@.next)),
                            row: g@.row + n,
                            next: g@.next + 1,
                            arrays: s.arrays,
                        },
                        new as int,
                    );
                }
                return None;
            }
            let ghost before = g@;
            let ghost edits = g.buckets@;
            let n: u32 = if new - g.row < self.rpb as u64 {
                (new - g.row) as u32
            } else {
                self.rpb
            };
            let bucket = self.make_bucket(&template, &mut g.arrays, n);
            g.buckets.push(BucketEdit { number: g.next, bytes: bucket });
            g.last.push(g.row + n as u64 - 1);
            g.numbers.push(g.next);
            g.next = g.next + 1;
            g.row = g.row + n as u64;
            assert(edit_models(g.buckets@) =~= edit_models(edits).push(
                (before.next, bucket@),
            ));
        }
        if g.next > 0x7fff_ffff {
            None
        } else {
            Some(())
        }
    }
}

/// The cell of a new row of a column, where the column can be grown.
fn default_of(big: bool, cd: &ColumnDesc) -> (r: Option<RowDefault>)
    requires
        default_ready(cd@),
    ensures
        match column_default(big, cd@) {
            Some(d) => r is Some && r->0@ == d,
            None => r is None,
        },
        r matches Some(d) ==> (d@ matches DefaultModel::Bytes(s) ==> s.len() <= u32::MAX),
{
    match &cd.kind {
        ColumnKind::Scalar(v) => match encode_scalar_cell(big, cd, v) {
            Err(_) => None,
            Ok(cell) => match cd.data_type {
                DataType::Bool => Some(RowDefault::Bit(cell.len() > 0 && cell[0] != 0)),
                _ => Some(RowDefault::Bytes(cell)),
            },
        },
        ColumnKind::Array => {
            if to_pattern32(cd.options) % 2 == 1 {
                return None;
            }
            if matches!(cd.data_type, DataType::String) {
                return None;
            }
            if !fixed_shape(cd) {
                return Some(RowDefault::Null);
            }
            match default_cell_value(cd) {
                Some(RecordValue::Array(a)) => match encode_array_record(big, cd.data_type, &a) {
                    Ok(rec) => Some(RowDefault::Record(rec)),
                    Err(_) => None,
                },
                _ => None,
            }
        },
        ColumnKind::Record => None,
    }
}

/// Whether all cells of an array column have one shape with elements.
fn fixed_shape(cd: &ColumnDesc) -> (r: bool)
    ensures
        r == is_fixed(cd@),
{
    match &cd.shape {
        None => false,
        Some(s) => {
            let mut i: usize = 0;
            while i < s.len()
                invariant
                    i <= s@.len(),
                    cd@.shape == Some(s@),
                    forall|k: int| 0 <= k < i ==> #[trigger] s@[k] > 0,
                decreases s@.len() - i,
            {
                if s[i] <= 0 {
                    return false;
                }
                i = i + 1;
            }
            s.len() > 0
        },
    }
}

/// The cells of new rows, where all columns can be grown.
fn defaults_of(big: bool, cds: &[ColumnDesc], offsets: &[u32], rpb: u32, size: u32) -> (r: Option<
    Vec<RowDefault>,
>)
    requires
        forall|i: int| 0 <= i < cds@.len() ==> default_ready(#[trigger] cds@[i]@),
        offsets@.len() == cds@.len(),
    ensures
        match all_defaults(
            big,
            tabledesc::column_models(cds@),
            offsets@,
            rpb,
            size,
            0,
            Seq::empty(),
        ) {
            Some(d) => {
                &&& r is Some
                &&& default_models(r->0@) == d
                &&& d.len() == cds@.len()
                &&& forall|c: int|
                    0 <= c < d.len() ==> (#[trigger] offsets@[c]) + (rpb * default_bits(d[c]) + 7)
                        / 8 <= size
            },
            None => r is None,
        },
{
    let ghost models = tabledesc::column_models(cds@);
    let ghost all = all_defaults(big, models, offsets@, rpb, size, 0, Seq::empty());
    let mut out: Vec<RowDefault> = Vec::new();
    assert(default_models(out@) =~= Seq::<DefaultModel>::empty());
    let mut k: usize = 0;
    while k < cds.len()
        invariant
            forall|i: int| 0 <= i < cds@.len() ==> default_ready(#[trigger] cds@[i]@),
            offsets@.len() == cds@.len(),
            models == tabledesc::column_models(cds@),
            all == all_defaults(big, models, offsets@, rpb, size, 0, Seq::empty()),
            k <= cds@.len(),
            out@.len() == k,
            all == all_defaults(
                big,
                models,
                offsets@,
                rpb,
                size,
                k as int,
                default_models(out@),
            ),
            forall|c: int|
                0 <= c < k ==> (#[trigger] offsets@[c]) + (rpb * default_bits(out@[c]@) + 7) / 8
                    <= size,
        decreases cds@.len() - k,
    {
        assert(models[k as int] == cds@[k as int]@);
        let d = match default_of(big, &cds[k]) {
            None => {
                return None;
            },
            Some(d) => d,
        };
        let bits: u64 = d.bits();
        proof {
            lemma_region(rpb, bits as int);
        }
        let region: u128 = (rpb as u128 * bits as u128 + 7) / 8;
        if offsets[k] as u128 + region > size as u128 {
            return None;
        }
        let ghost before = default_models(out@);
        out.push(d);
        assert(default_models(out@) =~= before.push(d@));
        k = k + 1;
    }
    Some(out)
}

proof fn lemma_region(rpb: u32, bits: int)
    requires
        0 <= bits <= u64::MAX,
    ensures
        0 <= rpb * bits <= 0xffff_ffff * 0xffff_ffff_ffff_ffff,
{
    assert(0 <= rpb * bits <= 0xffff_ffff * 0xffff_ffff_ffff_ffff) by (nonlinear_arith)
        requires
            0 <= bits <= 0xffff_ffff_ffff_ffff,
            0 <= rpb <= 0xffff_ffff,
    ;
}

pub open spec fn wide(s: Seq<u32>) -> Seq<int> {
    s.map_values(|n: u32| n as int)
}

/// The index-bucket chain of a data file, in order.
fn ssm_index_chain(data: &[u8], h: &StandardStManHeader) -> (r: Vec<u32>)
    ensures
        wide(r@) == index_chain(data@, *h),
{
    let mut out: Vec<u32> = Vec::new();
    assert(wide(out@) =~= Seq::<int>::empty());
    if h.first_index_bucket < 0 {
        return out;
    }
    let mut b: u32 = h.first_index_bucket as u32;
    let mut k: u32 = h.nr_index_buckets;
    let ghost all = index_chain(data@, *h);
    assert(wide(out@) + chain_from(data@, *h, k as nat, b) =~= all);
    while k > 0
        invariant
            all == index_chain(data@, *h),
            all == wide(out@) + chain_from(data@, *h, k as nat, b),
        decreases k,
    {
        let ghost before = out@;
        out.push(b);
        assert(wide(out@) =~= wide(before).push(b as int));
        assert(forall|rest: Seq<int>|
            wide(out@) + rest =~= wide(before) + #[trigger] (seq![b as int] + rest));
        assert(wide(out@) + Seq::<int>::empty() =~= wide(out@));
        if h.index_bucket_offset > 0 {
            return out;
        }
        match bucket_slice(data, h.bucket_size, b) {
            None => {
                return out;
            },
            Some(bucket) => match ssm::read_i32_at(bucket, 4, h.big_endian) {
                Err(_) => {
                    return out;
                },
                Ok(next) => {
                    if next < 0 {
                        return out;
                    }
                    b = next as u32;
                },
            },
        }
        k = k - 1;
    }
    assert(wide(out@) + Seq::<int>::empty() =~= wide(out@));
    out
}

/// A chain of `needed` buckets.
fn fit_chain(chain: &Vec<u32>, needed: usize, next: u32) -> (r: Vec<u32>)
    requires
        needed > chain@.len() ==> next + (needed - chain@.len()) <= i32::MAX,
    ensures
        wide(r@) == chain_of(wide(chain@), needed as nat, next as int),
        r@.len() == needed,
{
    let mut out: Vec<u32> = Vec::new();
    let mut i: usize = 0;
    while i < needed
        invariant
            i <= needed,
            out@.len() == i,
            needed > chain@.len() ==> next + (needed - chain@.len()) <= i32::MAX,
            forall|k: int|
                0 <= k < i ==> (#[trigger] out@[k]) as int == chain_of(
                    wide(chain@),
                    needed as nat,
                    next as int,
                )[k],
        decreases needed - i,
    {
        if i < chain.len() {
            out.push(chain[i]);
        } else {
            out.push((next as u64 + (i - chain.len()) as u64) as u32);
        }
        i = i + 1;
    }
    assert(wide(out@) =~= chain_of(wide(chain@), needed as nat, next as int));
    out
}

/// The index bucket `i` of a stream, in a chain of buckets.
fn make_index_bucket(big: bool, stream: &Vec<u8>, size: u32, chain: &Vec<u32>, i: usize) -> (r: Vec<
    u8,
>)
    requires
        size > 8,
        i < chain@.len(),
        chain@.len() == ssmout::pieces(stream@.len() as int, size - 8),
    ensures
        r@ == chained_bucket(big, stream@, size as int, wide(chain@), i as int),
{
    let room: usize = (size - 8) as usize;
    let len: usize = stream.len();
    proof {
        ssmout::lemma_pieces(len as int, room as int);
        let p = ssmout::pieces(len as int, room as int);
        assert(i * room >= 0 && i * room <= (p - 1) * room && (p - 1) * room == p * room - room)
            by (nonlinear_arith)
            requires
                0 <= i <= p - 1,
                0 < room,
        ;
        assert((i + 1) * room == i * room + room) by (nonlinear_arith);
    }
    let at: usize = i * room;
    let end: usize = if len - at < room {
        len
    } else {
        at + room
    };
    let link: i32 = if i + 1 < chain.len() {
        to_signed32(chain[i + 1])
    } else {
        -1
    };
    let mut w = writer(big);
    w.put_i32(-1);
    w.put_i32(link);
    w.put_raw(vstd::slice::slice_subrange(stream.as_slice(), at, end));
    let b = w.into_bytes();
    proof {
        if i + 1 < chain@.len() {
            assert(wide(chain@)[i + 1] == chain@[i + 1]);
        }
        assert(b@ =~= aipsio::i32_bytes(big, -1i32 as i32) + aipsio::i32_bytes(big, link)
            + stream@.subrange(at as int, end as int));
    }
    resize(b.as_slice(), size as usize)
}

/// A header object.
pub fn encode_ssm_header(h: &StandardStManHeader) -> (r: Vec<u8>)
    ensures
        r@ == header_image(h.version, h.big_endian, numbers_of(*h)),
{
    let ghost big = h.big_endian;
    let ghost n = numbers_of(*h);
    let mut w = writer(h.big_endian);
    let ghost outer = w@;
    w.put_root_object_start("StandardStMan", h.version);
    if h.version >= 3 {
        w.put_bool(h.big_endian);
    }
    let ghost inner = w@;
    w.put_u32(h.bucket_size);
    w.put_u32(h.nr_buckets);
    w.put_u32(h.pers_cache_size);
    w.put_u32(h.n_free_bucket);
    let ghost second = w@;
    w.put_i32(h.first_free_bucket);
    w.put_u32(h.nr_index_buckets);
    w.put_i32(h.first_index_bucket);
    w.put_i32(h.index_bucket_offset);
    let ghost third = w@;
    w.put_i32(h.last_string_bucket);
    w.put_u32(h.index_length);
    w.put_u32(h.nr_index);
    w.put_object_end();
    proof {
        let b = ssmfile::numbers_bytes(big, n);
        let a1 = aipsio::u32_bytes(big, n.bucket_size);
        let a2 = aipsio::u32_bytes(big, n.nr_buckets);
        let a3 = aipsio::u32_bytes(big, n.pers_cache_size);
        let a4 = aipsio::u32_bytes(big, n.n_free_bucket);
        let b1 = aipsio::i32_bytes(big, n.first_free_bucket);
        let b2 = aipsio::u32_bytes(big, n.nr_index_buckets);
        let b3 = aipsio::i32_bytes(big, n.first_index_bucket);
        let b4 = aipsio::i32_bytes(big, n.index_bucket_offset);
        let c1 = aipsio::i32_bytes(big, n.last_string_bucket);
        let c2 = aipsio::u32_bytes(big, n.index_length);
        let c3 = aipsio::u32_bytes(big, n.nr_index);
        aipsio::lemma_sheet_put4(inner, a1, a2, a3, a4);
        aipsio::lemma_sheet_put4(second, b1, b2, b3, b4);
        aipsio::lemma_sheet_put3(third, c1, c2, c3);
        aipsio::lemma_sheet_put3(
            inner,
            a1 + a2 + a3 + a4,
            b1 + b2 + b3 + b4,
            c1 + c2 + c3,
        );
        if h.version >= 3 {
            let f = aipsio::bool_bytes(big);
            aipsio::lemma_sheet_put(outer.start(true, "StandardStMan"@, h.version), f, b);
            aipsio::lemma_sheet_object(outer, true, "StandardStMan"@, h.version, f + b);
        } else {
            aipsio::lemma_sheet_object(outer, true, "StandardStMan"@, h.version, b);
        }
        let all = header_image(h.version, big, n);
        assert(outer.put(all).body =~= all);
    }
    w.into_bytes()
}

/// What growing writes.
#[derive(Debug)]
pub struct SsmGrowth {
    /// Whole buckets, each written at its place.
    pub buckets: Vec<BucketEdit>,
    /// The bytes before the first bucket.
    pub header: Vec<u8>,
    /// The records appended to the array file.
    pub arrays: Vec<u8>,
    /// The number of buckets.
    pub next: u32,
}

impl View for SsmGrowth {
    type V = GrownModel;

    open spec fn view(&self) -> GrownModel {
        GrownModel {
            buckets: edit_models(self.buckets@),
            header: self.header@,
            arrays: self.arrays@,
            next: self.next as int,
        }
    }
}

/// Last rows as 32-bit numbers, where they fit.
fn narrow_rows(last: &Vec<u64>) -> (r: Option<Vec<u32>>)
    ensures
        r is Some <==> narrow(last@),
        r matches Some(v) ==> v@ == narrowed(last@),
{
    let mut out: Vec<u32> = Vec::new();
    let mut i: usize = 0;
    while i < last.len()
        invariant
            i <= last@.len(),
            out@.len() == i,
            forall|k: int|
                0 <= k < i ==> #[trigger] out@[k] == bytes::low32(last@[k] as int),
            forall|k: int| 0 <= k < i ==> #[trigger] last@[k] <= u32::MAX,
        decreases last@.len() - i,
    {
        if last[i] > 0xffff_ffff {
            return None;
        }
        let v: u32 = last[i] as u32;
        assert(v == bytes::low32(last@[i as int] as int));
        out.push(v);
        i = i + 1;
    }
    assert(out@ =~= narrowed(last@));
    Some(out)
}

/// The buckets of an index stream after `buckets`.
fn push_index(
    buckets: &mut Vec<BucketEdit>,
    big: bool,
    stream: &Vec<u8>,
    size: u32,
    chain: &Vec<u32>,
)
    requires
        size > 8,
        chain@.len() == ssmout::pieces(stream@.len() as int, size - 8),
    ensures
        edit_models(final(buckets)@) == edit_models(old(buckets)@) + index_edits(
            big,
            stream@,
            size as int,
            wide(chain@),
        ),
{
    let ghost before = edit_models(buckets@);
    let ghost all = index_edits(big, stream@, size as int, wide(chain@));
    assert(before + all.take(0) =~= before);
    let mut i: usize = 0;
    while i < chain.len()
        invariant
            i <= chain@.len(),
            size > 8,
            chain@.len() == ssmout::pieces(stream@.len() as int, size - 8),
            all == index_edits(big, stream@, size as int, wide(chain@)),
            edit_models(buckets@) == before + all.take(i as int),
        decreases chain@.len() - i,
    {
        let b = make_index_bucket(big, stream, size, chain, i);
        let ghost edits = buckets@;
        let number: u32 = chain[i];
        buckets.push(BucketEdit { number, bytes: b });
        proof {
            assert(wide(chain@)[i as int] == number);
            assert(all[i as int] == (number as int, b@));
            assert(edit_models(buckets@) =~= edit_models(edits).push((number as int, b@)));
            assert(edit_models(buckets@) =~= before + all.take(i + 1));
        }
        i = i + 1;
    }
    assert(all.take(chain@.len() as int) =~= all);
}

/// The header of a grown file.
fn grown_header(h: StandardStManHeader, next: u32, chain: &Vec<u32>, stream: usize) -> (r: Vec<u8>)
    requires
        chain@.len() <= u32::MAX,
    ensures
        r@ == bytes::resized(
            header_image(
                h.version,
                h.big_endian,
                grown_numbers(h, next as int, wide(chain@), stream as int),
            ),
            DATA_START as nat,
        ),
{
    let needed: usize = chain.len();
    let first: i32 = if needed == 0 {
        -1
    } else {
        assert(wide(chain@)[0] == chain@[0]);
        to_signed32(chain[0])
    };
    let at: i32 = if needed <= 1 {
        8
    } else {
        0
    };
    let head = StandardStManHeader {
        nr_buckets: next,
        nr_index_buckets: needed as u32,
        first_index_bucket: first,
        index_bucket_offset: at,
        index_length: length32(stream),
        nr_index: 1,
        ..h
    };
    let image = encode_ssm_header(&head);
    assert(numbers_of(head) == grown_numbers(h, next as int, wide(chain@), stream as int));
    resize(image.as_slice(), DATA_START)
}

/// The index and the header.
fn put_index(h: StandardStManHeader, data: &[u8], stream: &Vec<u8>, g: Progress) -> (r: Option<
    SsmGrowth,
>)
    requires
        h.bucket_size > 8,
        g@.next <= i32::MAX,
    ensures
        match index_put(h, data@, stream@, g@) {
            Some(f) => r is Some && r->0@ == f,
            None => r is None,
        },
{
    let needed: usize = index_bucket_count(stream.len(), h.bucket_size);
    proof {
        ssmout::lemma_pieces(stream@.len() as int, h.bucket_size - 8);
    }
    let old_chain = ssm_index_chain(data, &h);
    let extra: usize = if needed > old_chain.len() {
        needed - old_chain.len()
    } else {
        0
    };
    assert(old_chain@.len() == wide(old_chain@).len());
    if extra as u64 > 0x7fff_ffff - g.next as u64 || stream.len() as u64 > 0xffff_ffff {
        return None;
    }
    let next: u32 = g.next + extra as u32;
    let chain = fit_chain(&old_chain, needed, g.next);
    let mut buckets = g.buckets;
    push_index(&mut buckets, h.big_endian, stream, h.bucket_size, &chain);
    let header = grown_header(h, next, &chain, stream.len());
    Some(SsmGrowth { buckets, header, arrays: g.arrays, next })
}

/// The index and the header, once the rows are there.
fn finish(h: StandardStManHeader, rpb: u32, data: &[u8], columns: usize, g: Progress) -> (r: Option<
    SsmGrowth,
>)
    requires
        h.bucket_size > 8,
        g@.next <= i32::MAX,
    ensures
        match finished(h, rpb, data@, columns as nat, g@) {
            Some(f) => r is Some && r->0@ == f,
            None => r is None,
        },
{
    match narrow_rows(&g.last) {
        None => None,
        Some(last) => {
            let stream = encode_ssm_index(
                h.big_endian,
                rpb,
                columns,
                last.as_slice(),
                g.numbers.as_slice(),
            );
            put_index(h, data, &stream, g)
        },
    }
}

pub open spec fn array_file(f0i: Option<&[u8]>) -> Option<Seq<u8>> {
    match f0i {
        Some(b) => Some(b@),
        None => None,
    }
}

/// Where records are appended to an array file, and whether they are counted.
fn find_array_end(f0i: Option<&[u8]>, big: bool) -> (r: (usize, bool))
    ensures
        (r.0 as int, r.1) == array_end(array_file(f0i), big),
{
    match f0i {
        None => (16, false),
        Some(f) => {
            if f.len() < 16 {
                return (16, false);
            }
            let version: u64 = uint_from(big, vstd::slice::slice_subrange(f, 0, 4));
            (f.len(), version > 0)
        },
    }
}

fn all_zero(s: &Vec<u32>) -> (r: bool)
    ensures
        r == zeros(s@),
{
    let mut i: usize = 0;
    while i < s.len()
        invariant
            i <= s@.len(),
            forall|k: int| 0 <= k < i ==> #[trigger] s@[k] == 0,
        decreases s@.len() - i,
    {
        if s[i] != 0 {
            return false;
        }
        i = i + 1;
    }
    true
}

/// Whether a file has the layout that can be grown from `old` rows.
fn can_grow(f: &StandardStManFile, manager: &StandardStMan, columns: usize, old: u64) -> (r: bool)
    ensures
        r == growable(f@, manager@, columns as nat, old),
{
    let h = f.header();
    let indices = f.indices();
    assert(indices@.len() == f@.indices.len());
    if !(h.version == 2 || h.version == 3) || h.nr_index != 1 || indices.len() != 1 {
        return false;
    }
    if manager.column_offset.len() != columns || !all_zero(&manager.col_index_map) {
        return false;
    }
    let index = &indices[0];
    assert(f@.indices[0] == index@);
    let n: usize = index.last_row.len();
    if index.rows_per_bucket == 0 || n != index.bucket_number.len() || h.bucket_size <= 8 {
        return false;
    }
    if n == 0 {
        return old == 0;
    }
    if old == 0 || index.last_row[n - 1] != old - 1 {
        return false;
    }
    n < 2 || index.last_row[n - 2] < index.last_row[n - 1]
}

/// Grow a StandardStMan data file from `old` to `new` rows, which hold the
/// defaults of the columns `cds` (in the order the manager holds them).
///
/// `f0i` is the array file, where there is one. The result says what is to be
/// written; there is none where the layout cannot be grown in place.
pub fn ssm_grow(
    data: &[u8],
    f0i: Option<&[u8]>,
    big_endian: bool,
    manager: &StandardStMan,
    cds: &[ColumnDesc],
    old: u64,
    new: u64,
) -> (r: Option<SsmGrowth>)
    requires
        forall|i: int| 0 <= i < cds@.len() ==> default_ready(#[trigger] cds@[i]@),
    ensures
        match grown(
            data@,
            array_file(f0i),
            big_endian,
            manager@,
            tabledesc::column_models(cds@),
            old,
            new,
        ) {
            Some(m) => r is Some && r->0@ == m,
            None => r is None,
        },
{
    let f = match StandardStManFile::parse(data, big_endian) {
        Err(_) => {
            return None;
        },
        Ok(f) => f,
    };
    if !can_grow(&f, manager, cds.len(), old) || new > 0x1_0000_0000 {
        return None;
    }
    let h = f.header();
    let index = &f.indices()[0];
    assert(f@.indices[0] == index@);
    let rpb: u32 = index.rows_per_bucket;
    let defs = defaults_of(
        big_endian,
        cds,
        manager.column_offset.as_slice(),
        rpb,
        h.bucket_size,
    )?;
    let (base, counted) = find_array_end(f0i, big_endian);
    let filler = Filler {
        big: big_endian,
        rpb,
        size: h.bucket_size,
        offsets: manager.column_offset.as_slice(),
        defs,
        base,
        counted,
    };
    let mut g = Progress {
        buckets: Vec::new(),
        last: index.last_row.clone(),
        numbers: index.bucket_number.clone(),
        row: old,
        next: h.nr_buckets,
        arrays: Vec::new(),
    };
    assert(g@.buckets =~= Seq::<(int, Seq<u8>)>::empty());
    assert(g@.arrays =~= Seq::<u8>::empty());
    assert(g@.last =~= index@.last_row);
    assert(g@.numbers =~= index@.bucket_number);
    filler.top_up(data, &mut g, new)?;
    if filler.extend(&mut g, new).is_none() {
        return None;
    }
    finish(h, rpb, data, cds.len(), g)
}

} // verus!
