//! Data files with buckets written in their places.
use crate::bytes;
use crate::bytes::resize;
use crate::ismgrow::{IsmUpdate, UpdateModel};
use crate::ssm;
use crate::ssm::DATA_START;
use crate::ssmfile;
use crate::ssmfile::put_over;
use crate::ssmgrow::{edit_models, BucketEdit, GrownModel, SsmGrowth};
use vstd::prelude::*;

verus! {

/// A file with `b` in place of the bytes from `at` on; it is extended where it
/// ends before them.
pub open spec fn placed(f: Seq<u8>, at: int, b: Seq<u8>) -> Seq<u8> {
    ssmfile::overlay(
        bytes::resized(
            f,
            if f.len() < at + b.len() {
                (at + b.len()) as nat
            } else {
                f.len()
            },
        ),
        at,
        b,
    )
}

/// A file with the first `n` of the given buckets in their places.
pub open spec fn with_buckets(
    f: Seq<u8>,
    size: u32,
    edits: Seq<(int, Seq<u8>)>,
    n: nat,
) -> Seq<u8>
    decreases n,
{
    if n == 0 {
        f
    } else {
        placed(
            with_buckets(f, size, edits, (n - 1) as nat),
            ssm::bucket_start(size, edits[n - 1].0 as u32),
            edits[n - 1].1,
        )
    }
}

/// A grown StandardStMan file.
pub open spec fn grown_file(data: Seq<u8>, size: u32, m: GrownModel) -> Seq<u8> {
    placed(with_buckets(data, size, m.buckets, m.buckets.len()), 0, m.header)
}

/// An updated IncrementalStMan file: it ends with the index.
pub open spec fn updated_file(data: Seq<u8>, size: u32, m: UpdateModel) -> Seq<u8> {
    placed(
        bytes::resized(
            with_buckets(data, size, m.buckets, m.buckets.len()),
            (DATA_START + m.next * size) as nat,
        ) + m.index,
        0,
        m.header,
    )
}

/// Write bytes at a place; false where the file would be too long for memory.
fn place(f: &mut Vec<u8>, at: u64, b: &[u8]) -> (fits: bool)
    ensures
        fits == (at + b@.len() <= usize::MAX),
        fits ==> final(f)@ == placed(old(f)@, at as int, b@),
        !fits ==> final(f)@ == old(f)@,
{
    let end: u64 = match at.checked_add(b.len() as u64) {
        None => {
            return false;
        },
        Some(e) => e,
    };
    if end > usize::MAX as u64 {
        return false;
    }
    let n: usize = if f.len() < end as usize {
        end as usize
    } else {
        f.len()
    };
    let mut out = resize(f.as_slice(), n);
    put_over(&mut out, at as usize, b);
    *f = out;
    true
}

/// The bytes up to the end of every bucket fit in memory.
pub open spec fn buckets_fit(size: u32, edits: Seq<(int, Seq<u8>)>) -> bool {
    forall|i: int|
        0 <= i < edits.len() ==> ssm::bucket_start(size, (#[trigger] edits[i]).0 as u32)
            + edits[i].1.len() <= usize::MAX
}

fn place_buckets(f: &mut Vec<u8>, size: u32, edits: &Vec<BucketEdit>) -> (fits: bool)
    ensures
        fits == buckets_fit(size, edit_models(edits@)),
        fits ==> final(f)@ == with_buckets(
            old(f)@,
            size,
            edit_models(edits@),
            edits@.len(),
        ),
{
    let ghost before = f@;
    let ghost models = edit_models(edits@);
    let mut i: usize = 0;
    while i < edits.len()
        invariant
            models == edit_models(edits@),
            i <= edits@.len(),
            f@ == with_buckets(before, size, models, i as nat),
            forall|k: int|
                0 <= k < i ==> ssm::bucket_start(size, (#[trigger] models[k]).0 as u32)
                    + models[k].1.len() <= usize::MAX,
        decreases edits@.len() - i,
    {
        let number: u32 = edits[i].number;
        assert(models[i as int] == (number as int, edits@[i as int].bytes@));
        proof {
            ssm::lemma_u32_product(number, size);
        }
        let at: u64 = 512 + number as u64 * size as u64;
        if !place(f, at, edits[i].bytes.as_slice()) {
            return false;
        }
        i = i + 1;
    }
    true
}

impl SsmGrowth {
    /// The grown file, where it fits in memory.
    pub fn apply(&self, data: &[u8], bucket_size: u32) -> (r: Option<Vec<u8>>)
        ensures
            if buckets_fit(bucket_size, self@.buckets) {
                r is Some && r->0@ == grown_file(data@, bucket_size, self@)
            } else {
                r is None
            },
    {
        let mut f = vstd::slice::slice_to_vec(data);
        if !place_buckets(&mut f, bucket_size, &self.buckets) {
            return None;
        }
        assert(self.header.len() <= usize::MAX);
        place(&mut f, 0, self.header.as_slice());
        Some(f)
    }
}

impl IsmUpdate {
    /// The updated file, where it fits in memory.
    pub fn apply(&self, data: &[u8], bucket_size: u32) -> (r: Option<Vec<u8>>)
        ensures
            if buckets_fit(bucket_size, self@.buckets) && DATA_START + self@.next * bucket_size
                <= usize::MAX {
                r is Some && r->0@ == updated_file(data@, bucket_size, self@)
            } else {
                r is None
            },
    {
        let mut f = vstd::slice::slice_to_vec(data);
        if !place_buckets(&mut f, bucket_size, &self.buckets) {
            return None;
        }
        proof {
            ssm::lemma_u32_product(self.next, bucket_size);
        }
        let end: u64 = 512 + self.next as u64 * bucket_size as u64;
        if end > usize::MAX as u64 {
            return None;
        }
        let mut out = resize(f.as_slice(), end as usize);
        let ghost front = out@;
        out.extend_from_slice(self.index.as_slice());
        assert(out@ =~= front + self.index@);
        assert(self.header.len() <= usize::MAX);
        place(&mut out, 0, self.header.as_slice());
        Some(out)
    }
}

proof fn lemma_buckets_apart(size: u32, a: u32, b: u32)
    requires
        a != b,
    ensures
        ssm::bucket_start(size, a) + size <= ssm::bucket_start(size, b) || ssm::bucket_start(
            size,
            b,
        ) + size <= ssm::bucket_start(size, a),
        ssm::bucket_start(size, a) >= DATA_START,
{
    let (x, y, z) = (a as int, b as int, size as int);
    assert(x < y ==> x * z + z <= y * z) by (nonlinear_arith)
        requires
            z >= 0,
    ;
    assert(y < x ==> y * z + z <= x * z) by (nonlinear_arith)
        requires
            z >= 0,
    ;
    ssm::lemma_u32_product(a, size);
}

/// A bucket in its place is read back, and the others stay as they are.
pub proof fn law_bucket_placed(f: Seq<u8>, size: u32, k: u32, b: Seq<u8>, j: u32)
    requires
        b.len() == size,
    ensures
        ssm::bucket_of(placed(f, ssm::bucket_start(size, k), b), size, k) == Some(b),
        j != k && ssm::bucket_of(f, size, j) is Some ==> ssm::bucket_of(
            placed(f, ssm::bucket_start(size, k), b),
            size,
            j,
        ) == ssm::bucket_of(f, size, j),
{
    let at = ssm::bucket_start(size, k);
    let p = placed(f, at, b);
    ssm::lemma_u32_product(k, size);
    assert(p.subrange(at, at + size) =~= b);
    if j != k && ssm::bucket_of(f, size, j) is Some {
        let x = ssm::bucket_start(size, j);
        lemma_buckets_apart(size, j, k);
        assert(p.subrange(x, x + size) =~= f.subrange(x, x + size));
    }
}

/// The numbers of the buckets all differ.
pub open spec fn distinct(edits: Seq<(int, Seq<u8>)>) -> bool {
    forall|i: int, j: int|
        0 <= i < j < edits.len() ==> (#[trigger] edits[i]).0 != (#[trigger] edits[j]).0
}

/// The buckets have the given size, and their numbers fit.
pub open spec fn sized(edits: Seq<(int, Seq<u8>)>, size: u32) -> bool {
    forall|i: int|
        0 <= i < edits.len() ==> 0 <= (#[trigger] edits[i]).0 <= u32::MAX && edits[i].1.len()
            == size
}

/// Buckets in their places are all read back.
pub proof fn law_buckets_placed(f: Seq<u8>, size: u32, edits: Seq<(int, Seq<u8>)>, n: nat, i: int)
    requires
        distinct(edits),
        sized(edits, size),
        0 <= i < n <= edits.len(),
    ensures
        ssm::bucket_of(with_buckets(f, size, edits, n), size, edits[i].0 as u32) == Some(
            edits[i].1,
        ),
    decreases n,
{
    let g = with_buckets(f, size, edits, (n - 1) as nat);
    let k = edits[n - 1].0 as u32;
    law_bucket_placed(g, size, k, edits[n - 1].1, edits[i].0 as u32);
    if i < n - 1 {
        law_buckets_placed(f, size, edits, (n - 1) as nat, i);
        assert(edits[i].0 != edits[n - 1].0);
    }
}

/// Buckets with other numbers stay as they are.
pub proof fn law_other_buckets_kept(
    f: Seq<u8>,
    size: u32,
    edits: Seq<(int, Seq<u8>)>,
    n: nat,
    j: u32,
)
    requires
        sized(edits, size),
        n <= edits.len(),
        forall|i: int| 0 <= i < n ==> (#[trigger] edits[i]).0 != j,
        ssm::bucket_of(f, size, j) is Some,
    ensures
        ssm::bucket_of(with_buckets(f, size, edits, n), size, j) == ssm::bucket_of(f, size, j),
    decreases n,
{
    if n > 0 {
        law_other_buckets_kept(f, size, edits, (n - 1) as nat, j);
        assert(edits[n - 1].0 != j);
        law_bucket_placed(
            with_buckets(f, size, edits, (n - 1) as nat),
            size,
            edits[n - 1].0 as u32,
            edits[n - 1].1,
            j,
        );
    }
}

/// The bytes before the buckets leave the buckets as they are.
pub proof fn law_header_placed(f: Seq<u8>, size: u32, header: Seq<u8>, j: u32)
    requires
        header.len() == DATA_START,
    ensures
        placed(f, 0, header).len() >= DATA_START,
        placed(f, 0, header).subrange(0, DATA_START as int) == header,
        ssm::bucket_of(f, size, j) is Some ==> ssm::bucket_of(placed(f, 0, header), size, j)
            == ssm::bucket_of(f, size, j),
{
    let p = placed(f, 0, header);
    ssm::lemma_u32_product(j, size);
    assert(p.subrange(0, DATA_START as int) =~= header);
    if ssm::bucket_of(f, size, j) is Some {
        let x = ssm::bucket_start(size, j);
        assert(p.subrange(x, x + size) =~= f.subrange(x, x + size));
    }
}

} // verus!
