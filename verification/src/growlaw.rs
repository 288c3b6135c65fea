//! What reading gives of a grown StandardStMan data file: the old rows as they
//! were and the new rows with the columns' defaults.
use crate::aipsio;
use crate::aipsio::Cursor;
use crate::bytes;
use crate::ssm;
use crate::ssm::{HeaderNumbers, SsmFault, SsmModel, StandardStManHeader, DATA_START};
use crate::ssmfile;
use crate::ssmgrow;
use crate::ssmgrow::{DefaultModel, Growing, Kit, Sheet};
use crate::ssmlaw;
use crate::ssmout;
use crate::tilepatch;
use vstd::prelude::*;

verus! {

/// The bytes of a cell that is not a bit.
pub open spec fn cell_bytes(d: DefaultModel) -> int {
    match d {
        DefaultModel::Bytes(s) => s.len() as int,
        _ => 8,
    }
}

impl Kit {
    /// The bytes of a column's region.
    pub open spec fn region(self, c: int) -> int {
        (self.rpb * ssmgrow::default_bits(self.defs[c]) + 7) / 8
    }

    /// The regions of the columns do not overlap.
    pub open spec fn apart(self) -> bool {
        forall|c: int, d: int|
            0 <= c < self.defs.len() && 0 <= d < self.defs.len() && c != d ==> {
                ||| (#[trigger] self.offsets[c]) + self.region(c) <= #[trigger] self.offsets[d]
                ||| self.offsets[d] + self.region(d) <= self.offsets[c]
            }
    }

    /// Where the bytes of the cell of column `c` in the row `intra` start.
    pub open spec fn place(self, c: int, intra: int) -> int {
        self.offsets[c] + intra * cell_bytes(self.defs[c])
    }

    /// Two buckets have the same cell of column `c` in the row `intra`.
    pub open spec fn same_cell(self, a: Seq<u8>, b: Seq<u8>, c: int, intra: int) -> bool {
        if self.defs[c] is Bit {
            bytes::bit(a[self.offsets[c] + intra / 8], intra % 8) == bytes::bit(
                b[self.offsets[c] + intra / 8],
                intra % 8,
            )
        } else {
            a.subrange(
                self.place(c, intra),
                self.place(c, intra) + cell_bytes(self.defs[c]),
            ) == b.subrange(
                self.place(c, intra),
                self.place(c, intra) + cell_bytes(self.defs[c]),
            )
        }
    }

    /// The record at `k` among the appended ones.
    pub open spec fn record_stands(self, arrays: Seq<u8>, k: int, rec: Seq<u8>) -> bool {
        let b = self.counted_record(rec);
        &&& 0 <= k
        &&& k + b.len() <= arrays.len()
        &&& arrays.subrange(k, k + b.len()) == b
    }

    /// The cell of column `c` in the row `intra` of a bucket is the default: a
    /// fixed-shape array's refers to a record of its own in the array file.
    pub open spec fn cell_holds(self, s: Sheet, c: int, intra: int) -> bool {
        match self.defs[c] {
            DefaultModel::Bit(v) => bytes::bit(s.bucket[self.offsets[c] + intra / 8], intra % 8)
                == v,
            DefaultModel::Bytes(cell) => s.bucket.subrange(
                self.place(c, intra),
                self.place(c, intra) + cell.len(),
            ) == cell,
            DefaultModel::Record(rec) => exists|k: int| #[trigger]
                self.record_stands(s.arrays, k, rec) && s.bucket.subrange(
                    self.place(c, intra),
                    self.place(c, intra) + 8,
                ) == aipsio::u64_bytes(
                    self.big,
                    ((self.base + k) % 0x1_0000_0000_0000_0000) as u64,
                ),
            DefaultModel::Null => s.bucket.subrange(
                self.place(c, intra),
                self.place(c, intra) + 8,
            ) == bytes::resized(Seq::empty(), 8),
        }
    }

    pub open spec fn valid(self, c: int, intra: int) -> bool {
        0 <= c < self.defs.len() && 0 <= intra < self.rpb
    }
}

/// The cells of a column lie in its region, one after the other.
pub proof fn lemma_place(kit: Kit, c: int, i: int, j: int)
    requires
        kit.ready(),
        kit.valid(c, i),
        kit.valid(c, j),
    ensures
        !(kit.defs[c] is Bit) ==> {
            let n = cell_bytes(kit.defs[c]);
            &&& kit.offsets[c] <= kit.place(c, i)
            &&& kit.place(c, i) + n <= kit.offsets[c] + kit.region(c)
            &&& i < j ==> kit.place(c, i) + n <= kit.place(c, j)
            &&& i > j ==> kit.place(c, j) + n <= kit.place(c, i)
        },
        kit.defs[c] is Bit ==> i / 8 < kit.region(c),
        kit.offsets[c] + kit.region(c) <= kit.size,
{
    assert(kit.offsets[c] + (kit.rpb * ssmgrow::default_bits(kit.defs[c]) + 7) / 8 <= kit.size);
    if !(kit.defs[c] is Bit) {
        let n = cell_bytes(kit.defs[c]);
        let p = kit.rpb;
        assert(ssmgrow::default_bits(kit.defs[c]) == 8 * n);
        assert(p * (8 * n) == 8 * (p * n)) by (nonlinear_arith);
        assert(0 <= i * n && i * n + n <= p * n && (i < j ==> i * n + n <= j * n) && (i > j ==> j * n
            + n <= i * n)) by (nonlinear_arith)
            requires
                0 <= i < p,
                0 <= j < p,
                0 <= n,
        ;
    } else {
        assert(kit.rpb * 1 == kit.rpb);
    }
}

/// A cell that is put leaves the other cells as they are.
#[verifier::rlimit(40)]
proof fn lemma_put_same(kit: Kit, s: Sheet, c: int, i: int, d: int, j: int)
    requires
        kit.ready(),
        kit.apart(),
        kit.valid(c, i),
        kit.valid(d, j),
        s.bucket.len() == kit.size,
        c != d || i != j,
    ensures
        kit.same_cell(s.bucket, kit.cell_put(s, c, i).bucket, d, j),
{
    let t = kit.cell_put(s, c, i);
    lemma_place(kit, c, i, if c == d { j } else { i });
    lemma_place(kit, d, j, j);
    lemma_word_len(kit, s.arrays);
    if kit.defs[c] is Bit {
        let g = 8 * kit.offsets[c] + i;
        assert(g / 8 == kit.offsets[c] + i / 8 && g % 8 == i % 8);
        if c == d {
            if i / 8 == j / 8 {
                let v = kit.defs[c]->Bit_0;
                tilepatch::lemma_with_bit(s.bucket[g / 8], (i % 8) as u8, v, (j % 8) as u8);
            }
        } else {
            assert(kit.offsets[c] + kit.region(c) <= kit.offsets[d] || kit.offsets[d] + kit.region(
                d,
            ) <= kit.offsets[c]);
            if !(kit.defs[d] is Bit) {
                let p = kit.place(d, j);
                let n = cell_bytes(kit.defs[d]);
                assert(s.bucket.subrange(p, p + n) =~= t.bucket.subrange(p, p + n));
            }
        }
    } else {
        if c != d {
            assert(kit.offsets[c] + kit.region(c) <= kit.offsets[d] || kit.offsets[d] + kit.region(
                d,
            ) <= kit.offsets[c]);
        }
        if !(kit.defs[d] is Bit) {
            let p = kit.place(d, j);
            let n = cell_bytes(kit.defs[d]);
            assert(s.bucket.subrange(p, p + n) =~= t.bucket.subrange(p, p + n));
        }
    }
}

proof fn lemma_word_len(kit: Kit, arrays: Seq<u8>)
    ensures
        aipsio::u64_bytes(kit.big, kit.record_place(arrays)).len() == 8,
        bytes::resized(Seq::empty(), 8).len() == 8,
{
    bytes::lemma_uint_bytes_len(kit.big, kit.record_place(arrays) as nat, 8);
}

/// A cell that is put is there, and the records only grow.
proof fn lemma_put_holds(kit: Kit, s: Sheet, c: int, i: int)
    requires
        kit.ready(),
        kit.valid(c, i),
        s.bucket.len() == kit.size,
    ensures
        kit.cell_holds(kit.cell_put(s, c, i), c, i),
{
    let t = kit.cell_put(s, c, i);
    lemma_place(kit, c, i, i);
    lemma_word_len(kit, s.arrays);
    let p = kit.place(c, i);
    match kit.defs[c] {
        DefaultModel::Bit(v) => {
            let g = 8 * kit.offsets[c] + i;
            assert(g / 8 == kit.offsets[c] + i / 8 && g % 8 == i % 8);
            tilepatch::lemma_with_bit(s.bucket[g / 8], (i % 8) as u8, v, (i % 8) as u8);
        },
        DefaultModel::Bytes(cell) => {
            assert(t.bucket.subrange(p, p + cell.len()) =~= cell);
        },
        DefaultModel::Record(rec) => {
            let k = s.arrays.len() as int;
            let b = kit.counted_record(rec);
            assert(t.arrays.subrange(k, k + b.len()) =~= b);
            assert(kit.record_stands(t.arrays, k, rec));
            assert(t.bucket.subrange(p, p + 8) =~= aipsio::u64_bytes(
                kit.big,
                kit.record_place(s.arrays),
            ));
        },
        DefaultModel::Null => {
            assert(t.bucket.subrange(p, p + 8) =~= bytes::resized(Seq::empty(), 8));
        },
    }
}

/// A cell that is the default stays so where the cell stays the same and the
/// records only grow.
proof fn lemma_holds_on(kit: Kit, s: Sheet, t: Sheet, c: int, i: int)
    requires
        kit.same_cell(s.bucket, t.bucket, c, i),
        s.arrays.is_prefix_of(t.arrays),
        kit.cell_holds(s, c, i),
    ensures
        kit.cell_holds(t, c, i),
{
    if let DefaultModel::Record(rec) = kit.defs[c] {
        let k = choose|k: int| #[trigger]
            kit.record_stands(s.arrays, k, rec) && s.bucket.subrange(
                kit.place(c, i),
                kit.place(c, i) + 8,
            ) == aipsio::u64_bytes(
                kit.big,
                ((kit.base + k) % 0x1_0000_0000_0000_0000) as u64,
            );
        let b = kit.counted_record(rec);
        assert(t.arrays.subrange(k, k + b.len()) =~= s.arrays.subrange(k, k + b.len()));
        assert(kit.record_stands(t.arrays, k, rec));
    }
}

/// Cells of a bucket: those in the columns `lo..hi` and the rows `from..to`.
pub struct Block {
    pub lo: int,
    pub hi: int,
    pub from: int,
    pub to: int,
}

impl Block {
    pub open spec fn has(self, c: int, i: int) -> bool {
        self.lo <= c < self.hi && self.from <= i < self.to
    }
}

/// The cell of column `c` in the row `i` is the default in `t` where it is in
/// the block, else the one in `s`.
pub open spec fn fares(kit: Kit, s: Sheet, t: Sheet, b: Block, c: int, i: int) -> bool {
    if b.has(c, i) {
        kit.cell_holds(t, c, i)
    } else {
        kit.same_cell(s.bucket, t.bucket, c, i)
    }
}

/// From `s` to `t` only the cells in the block change, to the defaults.
pub open spec fn only_filled(kit: Kit, s: Sheet, t: Sheet, b: Block) -> bool {
    &&& t.bucket.len() == s.bucket.len()
    &&& s.arrays.is_prefix_of(t.arrays)
    &&& forall|c: int, i: int|
        0 <= c < kit.defs.len() && 0 <= i < kit.rpb ==> #[trigger] fares(kit, s, t, b, c, i)
}

proof fn lemma_put_fills(kit: Kit, s: Sheet, c: int, i: int)
    requires
        kit.ready(),
        kit.apart(),
        kit.valid(c, i),
        s.bucket.len() == kit.size,
    ensures
        only_filled(
            kit,
            s,
            kit.cell_put(s, c, i),
            (Block { lo: c, hi: c + 1, from: i, to: i + 1 }),
        ),
{
    let t = kit.cell_put(s, c, i);
    let b = Block { lo: c, hi: c + 1, from: i, to: i + 1 };
    assert forall|d: int, j: int| 0 <= d < kit.defs.len() && 0 <= j < kit.rpb implies #[trigger]
        fares(kit, s, t, b, d, j) by {
        if d == c && j == i {
            lemma_put_holds(kit, s, c, i);
        } else {
            lemma_put_same(kit, s, c, i, d, j);
        }
    }
    assert(s.arrays.is_prefix_of(t.arrays)) by {
        assert(t.arrays.take(s.arrays.len() as int) =~= s.arrays);
    }
}

/// Two fillings one after the other fill both blocks.
proof fn lemma_both_filled(kit: Kit, s: Sheet, t: Sheet, u: Sheet, a: Block, b: Block, all: Block)
    requires
        only_filled(kit, s, t, a),
        only_filled(kit, t, u, b),
        forall|c: int, i: int|
            0 <= c < kit.defs.len() && 0 <= i < kit.rpb ==> (#[trigger] all.has(c, i) <==> a.has(
                c,
                i,
            ) || b.has(c, i)),
    ensures
        only_filled(kit, s, u, all),
{
    assert(s.arrays.is_prefix_of(u.arrays)) by {
        assert(u.arrays.take(t.arrays.len() as int).take(s.arrays.len() as int) =~= u.arrays.take(
            s.arrays.len() as int,
        ));
    }
    assert forall|d: int, j: int| 0 <= d < kit.defs.len() && 0 <= j < kit.rpb implies #[trigger]
        fares(kit, s, u, all, d, j) by {
        assert(fares(kit, s, t, a, d, j));
        assert(fares(kit, t, u, b, d, j));
        assert(all.has(d, j) <==> a.has(d, j) || b.has(d, j));
        if a.has(d, j) && !b.has(d, j) {
            lemma_holds_on(kit, t, u, d, j);
        }
    }
}

proof fn lemma_none_filled(kit: Kit, s: Sheet, b: Block)
    requires
        b.lo >= b.hi || b.from >= b.to,
    ensures
        only_filled(kit, s, s, b),
{
    assert(s.arrays.is_prefix_of(s.arrays)) by {
        assert(s.arrays.take(s.arrays.len() as int) =~= s.arrays);
    }
    assert forall|d: int, j: int| 0 <= d < kit.defs.len() && 0 <= j < kit.rpb implies #[trigger]
        fares(kit, s, s, b, d, j) by {
        assert(!b.has(d, j));
    }
}

proof fn lemma_row_fills(kit: Kit, s: Sheet, i: int, n: nat)
    requires
        kit.ready(),
        kit.apart(),
        0 <= i < kit.rpb,
        n <= kit.defs.len(),
        s.bucket.len() == kit.size,
    ensures
        only_filled(
            kit,
            s,
            kit.row_put(s, i, n),
            (Block { lo: 0, hi: n as int, from: i, to: i + 1 }),
        ),
    decreases n,
{
    if n > 0 {
        let m = (n - 1) as nat;
        let t = kit.row_put(s, i, m);
        lemma_row_fills(kit, s, i, m);
        lemma_put_fills(kit, t, n - 1, i);
        lemma_both_filled(
            kit,
            s,
            t,
            kit.row_put(s, i, n),
            Block { lo: 0, hi: m as int, from: i, to: i + 1 },
            Block { lo: n - 1, hi: n as int, from: i, to: i + 1 },
            Block { lo: 0, hi: n as int, from: i, to: i + 1 },
        );
    } else {
        lemma_none_filled(kit, s, Block { lo: 0, hi: 0, from: i, to: i + 1 });
    }
}

proof fn lemma_rows_fill(kit: Kit, s: Sheet, from: int, n: nat)
    requires
        kit.ready(),
        kit.apart(),
        0 <= from,
        from + n <= kit.rpb,
        s.bucket.len() == kit.size,
    ensures
        only_filled(
            kit,
            s,
            kit.rows_put(s, from, n),
            (Block { lo: 0, hi: kit.defs.len() as int, from, to: from + n }),
        ),
    decreases n,
{
    let w = kit.defs.len() as int;
    if n > 0 {
        let m = (n - 1) as nat;
        let t = kit.rows_put(s, from, m);
        let i = from + n - 1;
        lemma_rows_fill(kit, s, from, m);
        lemma_row_fills(kit, t, i, kit.defs.len());
        lemma_both_filled(
            kit,
            s,
            t,
            kit.rows_put(s, from, n),
            Block { lo: 0, hi: w, from, to: from + m },
            Block { lo: 0, hi: w, from: i, to: i + 1 },
            Block { lo: 0, hi: w, from, to: from + n },
        );
    } else {
        lemma_none_filled(kit, s, Block { lo: 0, hi: w, from, to: from + n });
    }
}

proof fn lemma_column_fills(kit: Kit, s: Sheet, c: int, n: nat)
    requires
        kit.ready(),
        kit.apart(),
        0 <= c < kit.defs.len(),
        n <= kit.rpb,
        s.bucket.len() == kit.size,
    ensures
        only_filled(
            kit,
            s,
            kit.column_put(s, c, n),
            (Block { lo: c, hi: c + 1, from: 0, to: n as int }),
        ),
    decreases n,
{
    if n > 0 {
        let m = (n - 1) as nat;
        let t = kit.column_put(s, c, m);
        lemma_column_fills(kit, s, c, m);
        lemma_put_fills(kit, t, c, n - 1);
        lemma_both_filled(
            kit,
            s,
            t,
            kit.column_put(s, c, n),
            Block { lo: c, hi: c + 1, from: 0, to: m as int },
            Block { lo: c, hi: c + 1, from: n - 1, to: n as int },
            Block { lo: c, hi: c + 1, from: 0, to: n as int },
        );
    } else {
        lemma_none_filled(kit, s, Block { lo: c, hi: c + 1, from: 0, to: 0 });
    }
}

/// An empty bucket.
spec fn blank(kit: Kit) -> Seq<u8> {
    bytes::resized(Seq::empty(), kit.size as nat)
}

/// The cell of column `c` in the row `i` of the template of `k` columns.
spec fn in_template(kit: Kit, k: nat, c: int, i: int) -> bool {
    let s = Sheet { bucket: kit.template(k), arrays: Seq::empty() };
    if c < k && kit.is_plain(c) {
        kit.cell_holds(s, c, i)
    } else {
        kit.same_cell(blank(kit), s.bucket, c, i)
    }
}

proof fn lemma_template(kit: Kit, k: nat)
    requires
        kit.ready(),
        kit.apart(),
        k <= kit.defs.len(),
    ensures
        kit.template(k).len() == kit.size,
        forall|c: int, i: int|
            0 <= c < kit.defs.len() && 0 <= i < kit.rpb ==> #[trigger] in_template(kit, k, c, i),
    decreases k,
{
    if k > 0 {
        let m = (k - 1) as nat;
        lemma_template(kit, m);
        let s = Sheet { bucket: kit.template(m), arrays: Seq::empty() };
        let t = kit.column_put(s, k - 1, kit.rpb as nat);
        let u = Sheet { bucket: kit.template(k), arrays: Seq::empty() };
        if kit.is_plain(k - 1) {
            lemma_column_fills(kit, s, k - 1, kit.rpb as nat);
        }
        let b = Block { lo: k - 1, hi: k as int, from: 0, to: kit.rpb };
        assert forall|c: int, i: int| 0 <= c < kit.defs.len() && 0 <= i < kit.rpb implies
            #[trigger] in_template(kit, k, c, i) by {
            assert(in_template(kit, m, c, i));
            if kit.is_plain(k - 1) {
                assert(fares(kit, s, t, b, c, i));
                assert(b.has(c, i) <==> c == k - 1);
                if c < k - 1 && kit.is_plain(c) {
                    lemma_holds_on(kit, s, t, c, i);
                }
            }
        }
    }
}

/// The cell of column `c` in the row `i` after records were put for `n` rows of
/// `k` columns.
spec fn after_records(kit: Kit, s: Sheet, n: nat, k: nat, c: int, i: int) -> bool {
    let t = kit.records_put(s, n, k);
    if c < k && kit.defs[c] is Record && i < n {
        kit.cell_holds(t, c, i)
    } else {
        kit.same_cell(s.bucket, t.bucket, c, i)
    }
}

#[verifier::rlimit(40)]
proof fn lemma_records(kit: Kit, s: Sheet, n: nat, k: nat)
    requires
        kit.ready(),
        kit.apart(),
        k <= kit.defs.len(),
        n <= kit.rpb,
        s.bucket.len() == kit.size,
    ensures
        kit.records_put(s, n, k).bucket.len() == kit.size,
        s.arrays.is_prefix_of(kit.records_put(s, n, k).arrays),
        forall|c: int, i: int|
            0 <= c < kit.defs.len() && 0 <= i < kit.rpb ==> #[trigger] after_records(
                kit,
                s,
                n,
                k,
                c,
                i,
            ),
    decreases k,
{
    if k > 0 {
        let m = (k - 1) as nat;
        lemma_records(kit, s, n, m);
        let t = kit.records_put(s, n, m);
        let u = kit.records_put(s, n, k);
        let b = Block { lo: k - 1, hi: k as int, from: 0, to: n as int };
        if kit.defs[k - 1] is Record {
            lemma_column_fills(kit, t, k - 1, n);
            assert(s.arrays.is_prefix_of(u.arrays)) by {
                assert(u.arrays.take(t.arrays.len() as int).take(s.arrays.len() as int)
                    =~= u.arrays.take(s.arrays.len() as int));
            }
        }
        assert forall|c: int, i: int| 0 <= c < kit.defs.len() && 0 <= i < kit.rpb implies
            #[trigger] after_records(kit, s, n, k, c, i) by {
            assert(after_records(kit, s, n, m, c, i));
            if kit.defs[k - 1] is Record {
                assert(fares(kit, t, u, b, c, i));
                assert(b.has(c, i) <==> c == k - 1 && i < n);
                if c < k - 1 && kit.defs[c] is Record && i < n {
                    lemma_holds_on(kit, t, u, c, i);
                }
            }
        }
    } else {
        assert(s.arrays.take(s.arrays.len() as int) =~= s.arrays);
        assert forall|c: int, i: int| 0 <= c < kit.defs.len() && 0 <= i < kit.rpb implies
            #[trigger] after_records(kit, s, n, k, c, i) by {
        }
    }
}

/// All cells of the first `n` rows of a new bucket are defaults.
proof fn lemma_new_bucket(kit: Kit, arrays: Seq<u8>, n: nat)
    requires
        kit.ready(),
        kit.apart(),
        n <= kit.rpb,
    ensures
        kit.new_bucket(arrays, n).bucket.len() == kit.size,
        arrays.is_prefix_of(kit.new_bucket(arrays, n).arrays),
        forall|c: int, i: int|
            0 <= c < kit.defs.len() && 0 <= i < n ==> #[trigger] kit.cell_holds(
                kit.new_bucket(arrays, n),
                c,
                i,
            ),
{
    let k = kit.defs.len();
    let s = Sheet { bucket: kit.template(k), arrays };
    let t = kit.new_bucket(arrays, n);
    lemma_template(kit, k);
    lemma_records(kit, s, n, k);
    assert forall|c: int, i: int| 0 <= c < kit.defs.len() && 0 <= i < n implies #[trigger]
        kit.cell_holds(t, c, i) by {
        assert(in_template(kit, k, c, i));
        assert(after_records(kit, s, n, k, c, i));
        if kit.is_plain(c) {
            assert(kit.cell_holds(s, c, i));
            lemma_holds_on(kit, s, t, c, i);
        } else if kit.defs[c] is Null {
            lemma_place(kit, c, i, i);
            let p = kit.place(c, i);
            assert(blank(kit).subrange(p, p + 8) =~= bytes::resized(Seq::empty(), 8));
        }
    }
}

/// The first row of the bucket `k` of an index.
pub open spec fn start_row(last: Seq<u64>, k: int) -> int {
    if k == 0 {
        0
    } else {
        last[k - 1] + 1
    }
}

/// The last rows increase.
pub open spec fn rising(last: Seq<u64>) -> bool {
    forall|i: int, j: int| 0 <= i < j < last.len() ==> #[trigger] last[i] < #[trigger] last[j]
}

/// Every bucket of an index has some of its rows, and no more than it holds.
#[verifier::opaque]
pub open spec fn filled_index(last: Seq<u64>, rpb: int) -> bool {
    &&& rising(last)
    &&& forall|k: int|
        0 <= k < last.len() ==> start_row(last, k) <= #[trigger] last[k] < start_row(last, k) + rpb
}

/// The edit `e` belongs to the bucket `d + e` of the index: the new rows in it
/// are defaults.
#[verifier::opaque]
pub open spec fn edited(kit: Kit, g: Growing, old: int, e: int) -> bool {
    let k = g.last.len() - g.buckets.len() + e;
    &&& g.buckets[e].0 == g.numbers[k]
    &&& g.buckets[e].1.len() == kit.size
    &&& forall|c: int, i: int|
        0 <= c < kit.defs.len() && 0 <= i && old <= start_row(g.last, k) + i <= g.last[k]
            ==> #[trigger] kit.cell_holds(
            Sheet { bucket: g.buckets[e].1, arrays: g.arrays },
            c,
            i,
        )
}

/// The old rows of a topped-up bucket are kept.
#[verifier::opaque]
pub open spec fn kept(kit: Kit, m: SsmModel, g: Growing) -> bool {
    let last = m.indices[0].last_row;
    let d = g.last.len() - g.buckets.len();
    d < last.len() ==> {
        &&& d == last.len() - 1
        &&& ssm::bucket_of(m.data, kit.size as u32, m.indices[0].bucket_number[d]) matches Some(b)
            && forall|c: int, i: int|
            0 <= c < kit.defs.len() && 0 <= i <= last[d] - start_row(last, d) ==> #[trigger]
                kit.same_cell(b, g.buckets[0].1, c, i)
    }
}

/// What has been grown fits the file it was grown from.
#[verifier::opaque]
pub open spec fn orderly(kit: Kit, m: SsmModel, g: Growing, old: int) -> bool {
    let last = m.indices[0].last_row;
    let numbers = m.indices[0].bucket_number;
    let d = g.last.len() - g.buckets.len();
    &&& g.last.len() == g.numbers.len()
    &&& last.len() == numbers.len()
    &&& d == last.len() || d == last.len() - 1
    &&& 0 <= d
    &&& last.len() <= g.last.len()
    &&& g.next == m.header.nr_buckets + (g.last.len() - last.len())
    &&& filled_index(g.last, kit.rpb)
    &&& g.row == start_row(g.last, g.last.len() as int)
    &&& old <= g.row
    &&& forall|k: int| 0 <= k < last.len() ==> #[trigger] g.numbers[k] == numbers[k]
    &&& forall|k: int|
        last.len() <= k < g.numbers.len() ==> #[trigger] g.numbers[k] == m.header.nr_buckets + (k
            - last.len())
    &&& forall|k: int| 0 <= k < d ==> #[trigger] g.last[k] == last[k]
    &&& d < last.len() ==> last[d] <= g.last[d]
    &&& forall|e: int| 0 <= e < g.buckets.len() ==> #[trigger] edited(kit, g, old, e)
    &&& kept(kit, m, g)
}

pub proof fn lemma_extended_orderly(kit: Kit, m: SsmModel, g: Growing, old: int, new: int)
    requires
        kit.ready(),
        kit.apart(),
        0 <= old <= new <= 0x1_0000_0000,
        orderly(kit, m, g, old),
        g.row <= new,
        old == start_row(m.indices[0].last_row, m.indices[0].last_row.len() as int),
        kit.extended(g, new).next <= i32::MAX,
    ensures
        orderly(kit, m, kit.extended(g, new), old),
        kit.extended(g, new).row == new,
        g.arrays.is_prefix_of(kit.extended(g, new).arrays),
    decreases new - g.row,
{
    reveal(orderly);
    if g.row < new {
        let n = ssm::min(kit.rpb, new - g.row);
        let s = kit.new_bucket(g.arrays, n as nat);
        let h = pushed(g, s, n);
        kit.lemma_extended_next(h, new);
        lemma_new_bucket(kit, g.arrays, n as nat);
        lemma_pushed_orderly(kit, m, g, h, s, n, old);
        lemma_extended_orderly(kit, m, h, old, new);
        let end = kit.extended(g, new);
        assert(g.arrays.is_prefix_of(end.arrays)) by {
            assert(end.arrays.take(h.arrays.len() as int).take(g.arrays.len() as int)
                =~= end.arrays.take(g.arrays.len() as int));
        }
    } else {
        assert(g.arrays.take(g.arrays.len() as int) =~= g.arrays);
    }
}

#[verifier::spinoff_prover]
#[verifier::rlimit(60)]
proof fn lemma_pushed_index(last: Seq<u64>, next: u64, rpb: int)
    requires
        filled_index(last, rpb),
        start_row(last, last.len() as int) <= next < start_row(last, last.len() as int) + rpb,
    ensures
        filled_index(last.push(next), rpb),
        forall|j: int|
            0 <= j <= last.len() ==> #[trigger] start_row(last.push(next), j) == start_row(last, j),
{
    reveal(filled_index);
    let k = last.len() as int;
    let all = last.push(next);
    assert forall|i: int, j: int| 0 <= i < j < all.len() implies #[trigger] all[i]
        < #[trigger] all[j] by {
        if j == k {
            if i < k - 1 {
                assert(last[i] < last[k - 1]);
            }
        } else {
            assert(last[i] < last[j]);
        }
    }
    assert forall|j: int| 0 <= j < all.len() implies start_row(all, j) <= #[trigger] all[j]
        < start_row(all, j) + rpb by {
        if j < k {
            assert(start_row(last, j) <= last[j] < start_row(last, j) + rpb);
        }
    }
}

#[verifier::rlimit(40)]
proof fn lemma_pushed_edited(kit: Kit, g: Growing, h: Growing, s: Sheet, n: int, old: int, e: int)
    requires
        g.last.len() == g.numbers.len(),
        g.buckets.len() <= g.last.len(),
        g.row == start_row(g.last, g.last.len() as int),
        0 <= g.next <= u32::MAX,
        0 < n,
        0 <= g.row,
        g.row + n <= 0x1_0000_0000,
        s.bucket.len() == kit.size,
        g.arrays.is_prefix_of(s.arrays),
        forall|c: int, i: int|
            0 <= c < kit.defs.len() && 0 <= i < n ==> #[trigger] kit.cell_holds(s, c, i),
        h == pushed(g, s, n),
        0 <= e <= g.buckets.len(),
        e < g.buckets.len() ==> edited(kit, g, old, e),
    ensures
        edited(kit, h, old, e),
{
    reveal(edited);
    let k = g.last.len() as int;
    let j = h.last.len() - h.buckets.len() + e;
    let t = Sheet { bucket: h.buckets[e].1, arrays: h.arrays };
    assert(start_row(h.last, j) == start_row(g.last, j));
    if e < g.buckets.len() {
        let a = Sheet { bucket: g.buckets[e].1, arrays: g.arrays };
        assert(h.buckets[e] == g.buckets[e]);
        assert(h.numbers[j] == g.numbers[j]);
        assert(h.last[j] == g.last[j]);
        assert forall|c: int, i: int|
            0 <= c < kit.defs.len() && 0 <= i && old <= start_row(h.last, j) + i
                <= h.last[j] implies #[trigger] kit.cell_holds(t, c, i) by {
            assert(kit.cell_holds(a, c, i));
            lemma_holds_on(kit, a, t, c, i);
        }
    } else {
        assert(j == k);
        assert(h.buckets[e] == (g.next, s.bucket));
        assert(t == s);
    }
}

/// What has been grown, with one more bucket.
pub open spec fn pushed(g: Growing, s: Sheet, n: int) -> Growing {
    Growing {
        buckets: g.buckets.push((g.next, s.bucket)),
        last: g.last.push((g.row + n - 1) as u64),
        numbers: g.numbers.push(bytes::low32(g.next)),
        row: g.row + n,
        next: g.next + 1,
        arrays: s.arrays,
    }
}

#[verifier::spinoff_prover]
#[verifier::rlimit(30)]
proof fn lemma_pushed_orderly(
    kit: Kit,
    m: SsmModel,
    g: Growing,
    h: Growing,
    s: Sheet,
    n: int,
    old: int,
)
    requires
        orderly(kit, m, g, old),
        0 < n <= kit.rpb,
        0 <= old,
        g.row + n <= 0x1_0000_0000,
        g.next < u32::MAX,
        s.bucket.len() == kit.size,
        g.arrays.is_prefix_of(s.arrays),
        forall|c: int, i: int|
            0 <= c < kit.defs.len() && 0 <= i < n ==> #[trigger] kit.cell_holds(s, c, i),
        h == pushed(g, s, n),
    ensures
        orderly(kit, m, h, old),
{
    reveal(orderly);
    let k = g.last.len() as int;
    let last = m.indices[0].last_row;
    lemma_pushed_index(g.last, (g.row + n - 1) as u64, kit.rpb);
    assert forall|e: int| 0 <= e < h.buckets.len() implies #[trigger] edited(kit, h, old, e) by {
        lemma_pushed_edited(kit, g, h, s, n, old, e);
    }
    lemma_pushed_kept(kit, m, g, h, s, n, old);
    assert forall|j: int| last.len() <= j < h.numbers.len() implies #[trigger] h.numbers[j]
        == m.header.nr_buckets + (j - last.len()) by {
        if j < k {
            assert(h.numbers[j] == g.numbers[j]);
        }
    }
    assert forall|j: int| 0 <= j < last.len() implies #[trigger] h.numbers[j]
        == m.indices[0].bucket_number[j] by {
        assert(h.numbers[j] == g.numbers[j]);
    }
}

proof fn lemma_pushed_kept(kit: Kit, m: SsmModel, g: Growing, h: Growing, s: Sheet, n: int, old: int)
    requires
        orderly(kit, m, g, old),
        h == pushed(g, s, n),
    ensures
        kept(kit, m, h),
{
    reveal(orderly);
    reveal(kept);
    let d = h.last.len() - h.buckets.len();
    if d < m.indices[0].last_row.len() {
        assert(h.buckets[0] == g.buckets[0]);
    }
}

/// The index of a file names a bucket for each of its last rows, up to `old`
/// rows.
pub open spec fn indexed(m: SsmModel, rpb: int, old: int) -> bool {
    let last = m.indices[0].last_row;
    &&& last.len() == m.indices[0].bucket_number.len()
    &&& filled_index(last, rpb)
    &&& old == start_row(last, last.len() as int)
}

proof fn lemma_start_orderly(kit: Kit, m: SsmModel, old: u64)
    requires
        indexed(m, kit.rpb, old as int),
    ensures
        orderly(kit, m, ssmgrow::start_of(m, old), old as int),
{
    reveal(orderly);
    reveal(kept);
}

/// The index with its last bucket grown.
proof fn lemma_grown_last(last: Seq<u64>, end: u64, rpb: int)
    requires
        last.len() > 0,
        filled_index(last, rpb),
        last.last() <= end < start_row(last, last.len() - 1) + rpb,
    ensures
        filled_index(last.update(last.len() - 1, end), rpb),
{
    reveal(filled_index);
    let n = last.len() as int;
    let all = last.update(n - 1, end);
    assert forall|i: int, j: int| 0 <= i < j < all.len() implies #[trigger] all[i]
        < #[trigger] all[j] by {
        assert(last[i] < last[j]);
    }
    assert forall|j: int| 0 <= j < all.len() implies start_row(all, j) <= #[trigger] all[j]
        < start_row(all, j) + rpb by {
        assert(start_row(all, j) == start_row(last, j));
        assert(start_row(last, j) <= last[j] < start_row(last, j) + rpb);
    }
}

#[verifier::spinoff_prover]
#[verifier::rlimit(30)]
pub proof fn lemma_topped_orderly(kit: Kit, m: SsmModel, old: u64, new: int)
    requires
        kit.ready(),
        kit.apart(),
        old <= new <= 0x1_0000_0000,
        indexed(m, kit.rpb, old as int),
        kit.topped(m.data, ssmgrow::start_of(m, old), new) is Some,
    ensures
        ({
            let g = kit.topped(m.data, ssmgrow::start_of(m, old), new)->0;
            orderly(kit, m, g, old as int) && g.row <= new
        }),
{
    let g = ssmgrow::start_of(m, old);
    let last = g.last;
    let n = last.len();
    lemma_start_orderly(kit, m, old);
    if n > 0 {
        let start = start_row(last, n - 1);
        let end = ssm::min(start + kit.rpb, new);
        assert(start <= last[n - 1] < start + kit.rpb) by {
            reveal(filled_index);
        }
        if last[n - 1] + 1 < end {
            let number = g.numbers[n - 1];
            let bucket = ssm::bucket_of(m.data, kit.size as u32, number)->0;
            let s = Sheet { bucket, arrays: g.arrays };
            let t = kit.rows_put(s, g.row - start, (end - g.row) as nat);
            let h = kit.topped(m.data, g, new)->0;
            lemma_bucket_size(m.data, kit.size, number);
            lemma_rows_fill(kit, s, g.row - start, (end - g.row) as nat);
            lemma_grown_last(last, (end - 1) as u64, kit.rpb);
            lemma_topped_edit(kit, m, g, h, s, t, old as int, start, end);
        }
    }
}

proof fn lemma_bucket_size(data: Seq<u8>, size: int, number: u32)
    requires
        0 <= size <= u32::MAX,
        ssm::bucket_of(data, size as u32, number) is Some,
    ensures
        ssm::bucket_of(data, size as u32, number)->0.len() == size,
{
    ssm::lemma_u32_product(number, size as u32);
}

#[verifier::rlimit(40)]
proof fn lemma_topped_edit(
    kit: Kit,
    m: SsmModel,
    g: Growing,
    h: Growing,
    s: Sheet,
    t: Sheet,
    old: int,
    start: int,
    end: int,
)
    requires
        g.last.len() > 0,
        g.last == m.indices[0].last_row,
        g.numbers == m.indices[0].bucket_number,
        g.numbers.len() == g.last.len(),
        g.buckets.len() == 0,
        g.row == old,
        g.next == m.header.nr_buckets,
        start == start_row(g.last, g.last.len() - 1),
        old == g.last.last() + 1,
        start <= g.last.last(),
        old < end <= start + kit.rpb,
        end <= 0x1_0000_0000,
        ssm::bucket_of(m.data, kit.size as u32, g.numbers.last()) == Some(s.bucket),
        s.bucket.len() == kit.size,
        only_filled(
            kit,
            s,
            t,
            (Block { lo: 0, hi: kit.defs.len() as int, from: old - start, to: end - start }),
        ),
        filled_index(h.last, kit.rpb),
        h == (Growing {
            buckets: g.buckets.push((g.numbers.last() as int, t.bucket)),
            last: g.last.update(g.last.len() - 1, (end - 1) as u64),
            row: end,
            arrays: t.arrays,
            ..g
        }),
    ensures
        orderly(kit, m, h, old),
{
    reveal(orderly);
    let n = g.last.len() as int;
    let b = Block { lo: 0, hi: kit.defs.len() as int, from: old - start, to: end - start };
    assert(start_row(h.last, n - 1) == start);
    assert(edited(kit, h, old, 0)) by {
        reveal(edited);
        let u = Sheet { bucket: h.buckets[0].1, arrays: h.arrays };
        assert(u == t);
        assert forall|c: int, i: int|
            0 <= c < kit.defs.len() && 0 <= i && old <= start_row(h.last, n - 1) + i <= h.last[n
                - 1] implies #[trigger] kit.cell_holds(u, c, i) by {
            assert(b.has(c, i));
            assert(fares(kit, s, t, b, c, i));
        }
    }
    assert(kept(kit, m, h)) by {
        reveal(kept);
        assert forall|c: int, i: int|
            0 <= c < kit.defs.len() && 0 <= i <= g.last[n - 1] - start implies #[trigger]
            kit.same_cell(s.bucket, h.buckets[0].1, c, i) by {
            assert(!b.has(c, i));
            assert(fares(kit, s, t, b, c, i));
        }
    }
}

/// A header is read back from a file that begins with it.
#[verifier::rlimit(40)]
pub proof fn lemma_header_read(file: Seq<u8>, version: u32, big: bool, n: HeaderNumbers)
    requires
        version == 2 || version == 3,
        file.len() >= DATA_START,
        file.subrange(0, DATA_START as int) == bytes::resized(
            ssmgrow::header_image(version, big, n),
            DATA_START as nat,
        ),
    ensures
        ssm::header_of(file, big) == Ok::<StandardStManHeader, SsmFault>(
            ssm::header_with(version, big, n),
        ),
{
    let image = ssmgrow::header_image(version, big, n);
    let c = Cursor { data: file, big, pos: 0 };
    lemma_image_len(version, big, n);
    assert(file.subrange(0, image.len() as int) =~= image) by {
        assert forall|i: int| 0 <= i < image.len() implies file[i] == image[i] by {
            assert(file[i] == file.subrange(0, DATA_START as int)[i]);
        }
    }
    assert(c.holds(image));
    reveal_strlit("StandardStMan");
    vstd::utf8::is_ascii_chars_encode_utf8("StandardStMan"@);
    let b = ssmfile::numbers_bytes(big, n);
    if version == 3 {
        let f = aipsio::bool_bytes(big);
        aipsio::law_object_round_trip(c, true, "StandardStMan"@, version, f + b);
        let (head, d) = c.object_start(true)->Ok_0;
        aipsio::lemma_holds_concat(d, f, b);
        aipsio::law_bool_round_trip(d, big);
        ssmlaw::lemma_numbers_round_trip(d.skip(1), n);
    } else {
        aipsio::law_object_round_trip(c, true, "StandardStMan"@, version, b);
        let (head, d) = c.object_start(true)->Ok_0;
        ssmlaw::lemma_numbers_round_trip(d, n);
    }
}

pub proof fn lemma_image_len(version: u32, big: bool, n: HeaderNumbers)
    ensures
        ssmgrow::header_image(version, big, n).len() <= 100,
{
    let c = Cursor { data: ssmfile::numbers_bytes(big, n), big, pos: 0 };
    assert(c.data.subrange(0, c.data.len() as int) =~= c.data);
    ssmlaw::lemma_numbers_parts(c, n);
    reveal_strlit("StandardStMan");
    vstd::utf8::is_ascii_chars_encode_utf8("StandardStMan"@);
    bytes::lemma_uint_bytes_len(big, aipsio::MAGIC as nat, 4);
    bytes::lemma_uint_bytes_len(big, version as nat, 4);
    bytes::lemma_uint_bytes_len(big, bytes::low32(13) as nat, 4);
    let len = if version >= 3 {
        45int
    } else {
        44int
    };
    bytes::lemma_uint_bytes_len(big, bytes::low32(12 + 13 + len) as nat, 4);
}

/// What stands in an index bucket.
#[verifier::spinoff_prover]
#[verifier::rlimit(60)]
pub proof fn lemma_chained_bucket(big: bool, stream: Seq<u8>, size: int, chain: Seq<int>, i: int)
    requires
        8 < size,
        0 <= i < chain.len(),
        chain.len() == ssmout::pieces(stream.len() as int, size - 8),
        forall|k: int| 0 <= k < chain.len() ==> 0 <= #[trigger] chain[k] <= i32::MAX,
    ensures
        ({
            let room = size - 8;
            let len = stream.len() as int;
            let b = ssmgrow::chained_bucket(big, stream, size, chain, i);
            let n = ssm::min(len - i * room, room);
            &&& 0 <= i * room <= len
            &&& b.len() == size
            &&& ssm::i32_in(b, 4, big) == Ok::<i32, SsmFault>(
                if i + 1 < chain.len() {
                    chain[i + 1] as i32
                } else {
                    -1i32 as i32
                },
            )
            &&& b.subrange(8, 8 + n) == stream.subrange(i * room, i * room + n)
            &&& i + 1 == chain.len() ==> n == len - i * room
            &&& i + 1 < chain.len() ==> n == room && (i + 1) * room == i * room + room
        }),
{
    let room = size - 8;
    let len = stream.len() as int;
    let count = chain.len() as int;
    let n = ssm::min(len - i * room, room);
    ssmout::lemma_pieces(len, room);
    assert((i + 1) * room == i * room + room && i * room >= 0 && (count - 1) * room == count * room
        - room && i * room <= (count - 1) * room && (i + 1 < count ==> (i + 1) * room <= (count
        - 1) * room)) by (nonlinear_arith)
        requires
            0 <= i < count,
            room > 0,
    ;
    let next = if i + 1 < count {
        bytes::signed32(bytes::low32(chain[i + 1]))
    } else {
        -1i32 as i32
    };
    let a = aipsio::i32_bytes(big, -1i32 as i32);
    let b = aipsio::i32_bytes(big, next);
    let piece = stream.subrange(i * room, ssm::min((i + 1) * room, len));
    bytes::lemma_uint_bytes_len(big, bytes::pattern32(-1i32 as i32) as nat, 4);
    bytes::lemma_uint_bytes_len(big, bytes::pattern32(next) as nat, 4);
    bytes::lemma_spans();
    bytes::law_uint_round_trip(big, bytes::pattern32(next) as nat, 4);
    let bucket = ssmgrow::chained_bucket(big, stream, size, chain, i);
    assert(bucket.subrange(4, 8) =~= b);
    assert(bucket.subrange(8, 8 + n) =~= piece);
    assert(piece =~= stream.subrange(i * room, i * room + n));
}

/// The buckets of an index stand in a file.
#[verifier::opaque]
pub open spec fn chain_stands(file: Seq<u8>, h: StandardStManHeader, stream: Seq<u8>, chain: Seq<int>) -> bool {
    forall|k: int|
        0 <= k < chain.len() ==> ssm::bucket_of(
            file,
            h.bucket_size,
            (#[trigger] chain[k]) as u32,
        ) == Some(
            ssmgrow::chained_bucket(h.big_endian, stream, h.bucket_size as int, chain, k),
        )
}

#[verifier::spinoff_prover]
#[verifier::rlimit(60)]
pub proof fn lemma_chain_read(
    file: Seq<u8>,
    h: StandardStManHeader,
    stream: Seq<u8>,
    chain: Seq<int>,
    i: int,
)
    requires
        h.bucket_size > 8,
        h.index_bucket_offset == 8 || h.index_bucket_offset == 0,
        0 <= i < chain.len(),
        chain.len() == ssmout::pieces(stream.len() as int, h.bucket_size - 8),
        forall|k: int| 0 <= k < chain.len() ==> 0 <= #[trigger] chain[k] <= i32::MAX,
        chain_stands(file, h, stream, chain),
    ensures
        ssm::chain(
            file,
            h,
            (chain.len() - i) as nat,
            chain[i] as u32,
            stream.len() - i * (h.bucket_size - 8),
        ) == Ok::<Seq<u8>, SsmFault>(
            stream.subrange(i * (h.bucket_size - 8), stream.len() as int),
        ),
    decreases chain.len() - i,
{
    let room = h.bucket_size - 8;
    let len = stream.len() as int;
    let count = chain.len() as int;
    let bucket = ssmgrow::chained_bucket(
        h.big_endian,
        stream,
        h.bucket_size as int,
        chain,
        i,
    );
    let next = if i + 1 < count {
        chain[i + 1] as i32
    } else {
        -1i32 as i32
    };
    lemma_chained_bucket(h.big_endian, stream, h.bucket_size as int, chain, i);
    assert(ssm::bucket_of(file, h.bucket_size, chain[i] as u32) == Some(bucket)) by {
        reveal(chain_stands);
    }
    ssmlaw::lemma_chain_step(
        file,
        h,
        (count - i) as nat,
        chain[i] as u32,
        len - i * room,
        bucket,
        next,
    );
    if i + 1 < count {
        lemma_chain_read(file, h, stream, chain, i + 1);
        assert(stream.subrange(i * room, i * room + room) + stream.subrange(
            (i + 1) * room,
            len,
        ) =~= stream.subrange(i * room, len));
        assert(len - i * room - room == len - (i + 1) * room);
        assert((count - i - 1) as nat == (count - (i + 1)) as nat);
    }
}

} // verus!
