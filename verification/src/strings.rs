//! The string buckets of a StandardStMan data file.
//!
//! A string bucket has a header of four big-endian integers, whatever the
//! endianness of the data file: an unused one, the number of bytes used, the
//! number of bytes free, and the number of the bucket in which the last
//! string goes on (-1 if it does not). The string data follow.
use crate::aipsio;
use crate::bytes;
use crate::bytes::{resize, to_signed32};
use crate::ssm::{SsmFault, SsmModel};
use crate::ssmfile;
use crate::ssmout::writer;
use vstd::prelude::*;

verus! {

/// One string bucket: its data and the number of the next bucket.
#[verifier::ext_equal]
pub struct BucketModel {
    pub data: Seq<u8>,
    pub next: i32,
}

/// String buckets of `size` bytes each, numbered from `first` on.
#[verifier::ext_equal]
pub struct Shelf {
    pub size: int,
    pub first: i32,
    pub buckets: Seq<BucketModel>,
}

impl Shelf {
    /// The number of bucket `k`.
    pub open spec fn number(self, k: int) -> i32 {
        bytes::signed32(bytes::low32(self.first + k))
    }

    /// The shelf with a fresh bucket.
    pub open spec fn add(self) -> Shelf {
        Shelf {
            buckets: self.buckets.push(BucketModel { data: Seq::empty(), next: -1i32 as i32 }),
            ..self
        }
    }

    /// The free bytes in the last bucket.
    pub open spec fn room(self) -> int {
        self.size - 16 - self.buckets.last().data.len()
    }

    /// The shelf made ready for a string of `n` bytes: a fresh bucket is
    /// started when there is none, and when the string does not fit and less
    /// than 50 bytes are left.
    pub open spec fn ready(self, n: nat) -> Shelf {
        let s = if self.buckets.len() == 0 {
            self.add()
        } else {
            self
        };
        if n > s.room() && s.room() < 50 {
            s.add()
        } else {
            s
        }
    }

    /// The shelf with `b` appended to the data of the last bucket.
    pub open spec fn append(self, b: Seq<u8>, next: i32) -> Shelf {
        let k = self.buckets.len() - 1;
        Shelf {
            buckets: self.buckets.update(
                k,
                BucketModel { data: self.buckets[k].data + b, next },
            ),
            ..self
        }
    }

    /// The shelf with `s` written from the end of the last bucket on, into
    /// further buckets where it does not fit.
    pub open spec fn fill(self, s: Seq<u8>) -> Shelf
        decreases
                s.len(),
                if self.room() <= 0 {
                    1int
                } else {
                    0int
                },
    {
        if self.size <= 16 || s.len() <= self.room() || self.room() < 0 {
            self.append(s, self.buckets.last().next)
        } else {
            let n = self.room();
            self.append(s.subrange(0, n), self.number(self.buckets.len() as int)).add().fill(
                s.subrange(n, s.len() as int),
            )
        }
    }

    /// The shelf with the string `s` put on it.
    pub open spec fn put(self, s: Seq<u8>) -> Shelf {
        self.ready(s.len()).fill(s)
    }

    /// Where the string `s` is put: a bucket number and an offset into its
    /// data.
    pub open spec fn place(self, s: Seq<u8>) -> (i32, u32) {
        let r = self.ready(s.len());
        (
            r.number(r.buckets.len() - 1),
            bytes::low32(r.buckets.last().data.len() as int),
        )
    }

    /// No bucket holds more than fits.
    pub open spec fn sound(self) -> bool {
        &&& 16 < self.size
        &&& forall|i: int|
            0 <= i < self.buckets.len() ==> (#[trigger] self.buckets[i]).data.len() <= self.size
                - 16
    }

    /// The bytes of bucket `k`.
    pub open spec fn image(self, k: int) -> Seq<u8> {
        let b = self.buckets[k];
        let n = b.data.len() as int;
        aipsio::u32_bytes(true, 0) + aipsio::u32_bytes(true, bytes::low32(n)) + aipsio::u32_bytes(
            true,
            bytes::low32(self.size - 16 - n),
        ) + aipsio::i32_bytes(true, b.next) + bytes::resized(b.data, (self.size - 16) as nat)
    }

    /// The bytes of all buckets.
    pub open spec fn images(self) -> Seq<Seq<u8>> {
        Seq::new(self.buckets.len(), |k: int| self.image(k))
    }
}

struct StringBucket {
    data: Vec<u8>,
    next: i32,
}

/// The string buckets under construction.
pub struct StringBuckets {
    size: usize,
    first: i32,
    buckets: Vec<StringBucket>,
}

impl StringBucket {
    spec fn model(self) -> BucketModel {
        BucketModel { data: self.data@, next: self.next }
    }
}

impl View for StringBuckets {
    type V = Shelf;

    closed spec fn view(&self) -> Shelf {
        Shelf {
            size: self.size as int,
            first: self.first,
            buckets: self.buckets@.map_values(|b: StringBucket| b.model()),
        }
    }
}

impl StringBuckets {
    /// No buckets yet; the first one will have number `first_bucket`.
    pub fn new(bucket_size: u32, first_bucket: i32) -> (r: StringBuckets)
        ensures
            r@ == (Shelf {
                size: bucket_size as int,
                first: first_bucket,
                buckets: Seq::empty(),
            }),
    {
        let r = StringBuckets {
            size: bucket_size as usize,
            first: first_bucket,
            buckets: Vec::new(),
        };
        assert(r@.buckets =~= Seq::empty());
        r
    }

    fn new_bucket(&mut self)
        ensures
            final(self)@ == old(self)@.add(),
    {
        self.buckets.push(StringBucket { data: Vec::new(), next: -1 });
        assert(self@.buckets =~= old(self)@.add().buckets);
    }

    fn used(&self) -> (r: usize)
        requires
            self@.buckets.len() > 0,
        ensures
            r == self@.buckets.last().data.len(),
    {
        let k: usize = self.buckets.len() - 1;
        assert(self@.buckets[k as int] == self.buckets@[k as int].model());
        self.buckets[k].data.len()
    }

    fn bucket_number(&self, k: usize) -> (r: i32)
        ensures
            r == self@.number(k as int),
    {
        let n: i128 = self.first as i128 + k as i128;
        to_signed32((if n < 0 { n + 0x1_0000_0000 } else { n % 0x1_0000_0000 }) as u32)
    }

    fn append(&mut self, b: &[u8], next: Option<i32>)
        requires
            old(self)@.buckets.len() > 0,
        ensures
            final(self)@ == old(self)@.append(
                b@,
                match next {
                    Some(n) => n,
                    None => old(self)@.buckets.last().next,
                },
            ),
    {
        let ghost start = self@;
        let k: usize = self.buckets.len() - 1;
        assert(start.buckets[k as int] == self.buckets@[k as int].model());
        match self.buckets.pop() {
            None => {
                assert(false);
            },
            Some(mut last) => {
                last.data.extend_from_slice(b);
                if let Some(n) = next {
                    last.next = n;
                }
                let ghost data = last.data@;
                assert(data =~= start.buckets.last().data + b@);
                self.buckets.push(last);
            },
        }
        proof {
            let n = match next {
                Some(n) => n,
                None => start.buckets.last().next,
            };
            assert(self@.buckets =~= start.append(b@, n).buckets);
        }
    }

    /// Append `data`, returning the number of the bucket where it starts and
    /// the offset into that bucket's data.
    pub fn put(&mut self, data: &[u8]) -> (r: (i32, u32))
        requires
            old(self)@.sound(),
        ensures
            final(self)@ == old(self)@.put(data@),
            r == old(self)@.place(data@),
            final(self)@.sound(),
            final(self)@.buckets.len() > 0,
    {
        let ghost start = self@;
        if self.buckets.len() == 0 {
            self.new_bucket();
        }
        let free: usize = self.size - 16 - self.used();
        if data.len() > free && free < 50 {
            self.new_bucket();
        }
        assert(self@ == start.ready(data@.len()));
        assert(self@.buckets.len() == self.buckets@.len());
        let number: i32 = self.bucket_number(self.buckets.len() - 1);
        let offset: u32 = bytes::length32(self.used());
        let mut at: usize = 0;
        assert(data@.subrange(0, data@.len() as int) =~= data@);
        while data.len() - at > self.size - 16 - self.used()
            invariant
                at <= data@.len(),
                self@.sound(),
                self@.buckets.len() > 0,
                start.put(data@) == self@.fill(data@.subrange(at as int, data@.len() as int)),
            decreases
                    data@.len() - at,
                    if self@.room() <= 0 {
                        1int
                    } else {
                        0int
                    },
        {
            let room: usize = self.size - 16 - self.used();
            let piece = vstd::slice::slice_subrange(data, at, at + room);
            let next: i32 = self.bucket_number(self.buckets.len());
            proof {
                let rest = data@.subrange(at as int, data@.len() as int);
                assert(rest.subrange(0, room as int) =~= piece@);
                assert(rest.subrange(room as int, rest.len() as int) =~= data@.subrange(
                    at + room,
                    data@.len() as int,
                ));
            }
            self.append(piece, Some(next));
            self.new_bucket();
            at = at + room;
        }
        self.append(vstd::slice::slice_subrange(data, at, data.len()), None);
        (number, offset)
    }

    fn bucket_image(&self, k: usize) -> (r: Vec<u8>)
        requires
            self@.sound(),
            k < self@.buckets.len(),
        ensures
            r@ == self@.image(k as int),
    {
        let b = &self.buckets[k];
        assert(self@.buckets[k as int] == b.model());
        let n: usize = b.data.len();
        let mut w = writer(true);
        let ghost s = w@;
        w.put_u32(0);
        w.put_u32(bytes::length32(n));
        w.put_u32(bytes::length32(self.size - 16 - n));
        w.put_i32(b.next);
        let rest = resize(b.data.as_slice(), self.size - 16);
        w.put_raw(rest.as_slice());
        proof {
            let a = aipsio::u32_bytes(true, 0);
            let d = aipsio::u32_bytes(true, bytes::low32(n as int));
            let e = aipsio::u32_bytes(true, bytes::low32(self.size - 16 - n));
            let f = aipsio::i32_bytes(true, b.next);
            aipsio::lemma_sheet_put5(s, a, d, e, f, rest@);
            assert(s.put(a + d + e + f + rest@).body =~= a + d + e + f + rest@);
        }
        w.into_bytes()
    }

    /// The finished buckets.
    pub fn finish(&self) -> (r: Vec<Vec<u8>>)
        requires
            self@.sound(),
        ensures
            ssmfile::byte_strings(r@) == self@.images(),
    {
        let mut out: Vec<Vec<u8>> = Vec::new();
        let mut k: usize = 0;
        while k < self.buckets.len()
            invariant
                k <= self.buckets@.len(),
                self@.sound(),
                self@.buckets.len() == self.buckets@.len(),
                out@.len() == k,
                forall|i: int| 0 <= i < k ==> (#[trigger] out@[i])@ == self@.image(i),
            decreases self.buckets@.len() - k,
        {
            out.push(self.bucket_image(k));
            k = k + 1;
        }
        assert(ssmfile::byte_strings(out@) =~= self@.images());
        out
    }
}

/// The string `s` stands on the shelf from byte `offset` of bucket `k` on.
pub open spec fn stands(shelf: Shelf, k: int, offset: int, s: Seq<u8>) -> bool
    decreases s.len(),
{
    let b = shelf.buckets[k];
    let n = b.data.len() - offset;
    &&& 0 <= k < shelf.buckets.len()
    &&& 0 <= offset
    &&& 0 < n
    &&& if s.len() <= n {
        b.data.subrange(offset, offset + s.len()) == s
    } else {
        &&& b.data.subrange(offset, offset + n) == s.subrange(0, n)
        &&& k + 1 < shelf.buckets.len()
        &&& b.next == shelf.number(k + 1)
        &&& stands(shelf, k + 1, 0, s.subrange(n, s.len() as int))
    }
}

/// `b` is `a` with more strings put on it.
pub open spec fn grown(a: Shelf, b: Shelf) -> bool {
    &&& a.size == b.size
    &&& a.first == b.first
    &&& a.buckets.len() <= b.buckets.len()
    &&& forall|i: int|
        0 <= i < a.buckets.len() - 1 ==> #[trigger] b.buckets[i] == a.buckets[i]
    &&& a.buckets.len() > 0 ==> {
        let x = a.buckets.last().data;
        let y = b.buckets[a.buckets.len() - 1].data;
        x.len() <= y.len() && y.subrange(0, x.len() as int) == x
    }
}

pub proof fn lemma_grown_self(a: Shelf)
    ensures
        grown(a, a),
{
    if a.buckets.len() > 0 {
        let x = a.buckets.last().data;
        assert(x.subrange(0, x.len() as int) =~= x);
    }
}

pub proof fn lemma_grown_trans(a: Shelf, b: Shelf, c: Shelf)
    requires
        grown(a, b),
        grown(b, c),
    ensures
        grown(a, c),
{
    let n = a.buckets.len();
    assert forall|i: int| 0 <= i < n - 1 implies #[trigger] c.buckets[i] == a.buckets[i] by {
        assert(b.buckets[i] == a.buckets[i]);
    }
    if n > 0 {
        let x = a.buckets.last().data;
        let y = b.buckets[n - 1].data;
        let z = c.buckets[n - 1].data;
        if n < b.buckets.len() {
            assert(c.buckets[n - 1] == b.buckets[n - 1]);
        } else {
            assert(z.subrange(0, x.len() as int) =~= z.subrange(0, y.len() as int).subrange(
                0,
                x.len() as int,
            ));
        }
    }
}

proof fn lemma_grown_add(a: Shelf)
    ensures
        grown(a, a.add()),
        a.sound() ==> a.add().sound(),
{
    if a.buckets.len() > 0 {
        let x = a.buckets.last().data;
        assert(x.subrange(0, x.len() as int) =~= x);
    }
}

proof fn lemma_grown_append(a: Shelf, s: Seq<u8>, next: i32)
    requires
        a.buckets.len() > 0,
    ensures
        grown(a, a.append(s, next)),
        a.sound() && s.len() <= a.room() ==> a.append(s, next).sound(),
{
    let x = a.buckets.last().data;
    assert((x + s).subrange(0, x.len() as int) =~= x);
}

proof fn lemma_grown_fill(a: Shelf, s: Seq<u8>)
    requires
        a.sound(),
        a.buckets.len() > 0,
    ensures
        grown(a, a.fill(s)),
        a.fill(s).sound(),
    decreases
            s.len(),
            if a.room() <= 0 {
                1int
            } else {
                0int
            },
{
    if s.len() <= a.room() {
        lemma_grown_append(a, s, a.buckets.last().next);
    } else {
        let n = a.room();
        let next = a.number(a.buckets.len() as int);
        let b = a.append(s.subrange(0, n), next);
        lemma_grown_append(a, s.subrange(0, n), next);
        lemma_grown_add(b);
        lemma_grown_trans(a, b, b.add());
        lemma_grown_fill(b.add(), s.subrange(n, s.len() as int));
        lemma_grown_trans(a, b.add(), a.fill(s));
    }
}

/// Putting a string on the shelf leaves what stands there in place.
pub proof fn lemma_grown_put(a: Shelf, s: Seq<u8>)
    requires
        a.sound(),
    ensures
        grown(a, a.put(s)),
        a.put(s).sound(),
{
    let b = if a.buckets.len() == 0 {
        a.add()
    } else {
        a
    };
    lemma_grown_self(a);
    lemma_grown_add(a);
    lemma_grown_add(b);
    lemma_grown_trans(a, b, b.add());
    let r = a.ready(s.len());
    assert(grown(a, r));
    lemma_grown_fill(r, s);
    lemma_grown_trans(a, r, r.fill(s));
}

/// Filling keeps the size of the buckets and their numbering.
pub proof fn lemma_fill_size(a: Shelf, s: Seq<u8>)
    ensures
        a.fill(s).size == a.size,
        a.fill(s).first == a.first,
    decreases
            s.len(),
            if a.room() <= 0 {
                1int
            } else {
                0int
            },
{
    if !(a.size <= 16 || s.len() <= a.room() || a.room() < 0) {
        let n = a.room();
        lemma_fill_size(
            a.append(s.subrange(0, n), a.number(a.buckets.len() as int)).add(),
            s.subrange(n, s.len() as int),
        );
    }
}

/// What stands on the shelf stays there when more is put on it.
pub proof fn lemma_stands_grown(a: Shelf, b: Shelf, k: int, offset: int, s: Seq<u8>)
    requires
        grown(a, b),
        stands(a, k, offset, s),
    ensures
        stands(b, k, offset, s),
    decreases s.len(),
{
    let x = a.buckets[k].data;
    let y = b.buckets[k].data;
    let n = x.len() - offset;
    if s.len() <= n {
        if k < a.buckets.len() - 1 {
            assert(b.buckets[k] == a.buckets[k]);
        } else {
            assert(y.subrange(offset, offset + s.len()) =~= y.subrange(
                0,
                x.len() as int,
            ).subrange(offset, offset + s.len()));
        }
    } else {
        assert(b.buckets[k] == a.buckets[k]);
        lemma_stands_grown(a, b, k + 1, 0, s.subrange(n, s.len() as int));
    }
}

proof fn lemma_fill_stands(a: Shelf, s: Seq<u8>)
    requires
        a.sound(),
        a.buckets.len() > 0,
        0 < s.len(),
        0 < a.room(),
    ensures
        stands(
            a.fill(s),
            a.buckets.len() - 1,
            a.buckets.last().data.len() as int,
            s,
        ),
    decreases s.len(),
{
    let k = a.buckets.len() - 1;
    let x = a.buckets[k].data;
    let off = x.len() as int;
    if s.len() <= a.room() {
        assert((x + s).subrange(off, off + s.len()) =~= s);
    } else {
        let n = a.room();
        let next = a.number(k + 1);
        let head = s.subrange(0, n);
        let rest = s.subrange(n, s.len() as int);
        let b = a.append(head, next);
        lemma_grown_append(a, head, next);
        lemma_grown_add(b);
        lemma_fill_stands(b.add(), rest);
        lemma_grown_fill(b.add(), rest);
        let f = a.fill(s);
        assert(f == b.add().fill(rest));
        assert(f.buckets[k] == b.add().buckets[k]);
        assert((x + head).subrange(off, off + n) =~= head);
    }
}

/// A string put on the shelf stands at the place that was returned for it.
pub proof fn law_put_stands(a: Shelf, s: Seq<u8>)
    requires
        a.sound(),
        0 < s.len(),
    ensures
        ({
            let r = a.ready(s.len());
            &&& stands(a.put(s), r.buckets.len() - 1, r.buckets.last().data.len() as int, s)
            &&& r.buckets.len() > 0
            &&& r.buckets.len() <= a.put(s).buckets.len()
        }),
{
    lemma_grown_put(a, s);
    let r = a.ready(s.len());
    let b = if a.buckets.len() == 0 {
        a.add()
    } else {
        a
    };
    lemma_grown_add(a);
    lemma_grown_add(b);
    lemma_fill_stands(r, s);
    lemma_grown_fill(r, s);
}

/// The buckets of the shelf stand in the file under their numbers.
pub open spec fn shelved(m: SsmModel, shelf: Shelf) -> bool {
    &&& shelf.first >= 0
    &&& shelf.first + shelf.buckets.len() <= i32::MAX
    &&& shelf.size <= i32::MAX
    &&& forall|k: int|
        0 <= k < shelf.buckets.len() ==> #[trigger] m.bucket((shelf.first + k) as u32) == Ok::<
            Seq<u8>,
            SsmFault,
        >(shelf.image(k))
}

pub proof fn lemma_image(shelf: Shelf, k: int)
    requires
        shelf.sound(),
        shelf.size <= i32::MAX,
        0 <= k < shelf.buckets.len(),
    ensures
        ({
            let b = shelf.image(k);
            &&& b.len() == shelf.size
            &&& bytes::signed32(bytes::uint_value(true, b.subrange(4, 8)) as u32)
                == shelf.buckets[k].data.len()
            &&& bytes::signed32(bytes::uint_value(true, b.subrange(12, 16)) as u32)
                == shelf.buckets[k].next
            &&& b.subrange(16, 16 + shelf.buckets[k].data.len() as int) == shelf.buckets[k].data
        }),
{
    let d = shelf.buckets[k].data;
    let next = shelf.buckets[k].next;
    let used = bytes::low32(d.len() as int);
    let free = bytes::low32(shelf.size - 16 - d.len());
    let b = shelf.image(k);
    bytes::lemma_spans();
    bytes::lemma_uint_bytes_len(true, 0, 4);
    bytes::lemma_uint_bytes_len(true, used as nat, 4);
    bytes::lemma_uint_bytes_len(true, free as nat, 4);
    bytes::lemma_uint_bytes_len(true, bytes::pattern32(next) as nat, 4);
    bytes::law_uint_round_trip(true, used as nat, 4);
    bytes::law_uint_round_trip(true, bytes::pattern32(next) as nat, 4);
    assert(b.subrange(4, 8) =~= aipsio::u32_bytes(true, used));
    assert(b.subrange(12, 16) =~= aipsio::i32_bytes(true, next));
    assert(b.subrange(16, 16 + d.len() as int) =~= d);
}

/// A string that stands on the shelf is read back from the file.
#[verifier::rlimit(40)]
pub proof fn law_string_read_back(
    m: SsmModel,
    shelf: Shelf,
    k: int,
    offset: int,
    s: Seq<u8>,
    length: u32,
)
    requires
        shelved(m, shelf),
        shelf.sound(),
        stands(shelf, k, offset, s),
        0 < s.len() <= u32::MAX,
    ensures
        m.string_bytes((shelf.first + k) as i32, offset, s.len() as int, length) == Ok::<
            Seq<u8>,
            SsmFault,
        >(s),
    decreases s.len(),
{
    let d = shelf.buckets[k].data;
    let bucket = shelf.image(k);
    let n = d.len() - offset;
    lemma_image(shelf, k);
    assert(m.bucket((shelf.first + k) as u32) == Ok::<Seq<u8>, SsmFault>(bucket));
    if s.len() <= n {
        assert(bucket.subrange(16 + offset, 16 + offset + s.len()) =~= bucket.subrange(
            16,
            16 + d.len() as int,
        ).subrange(offset, offset + s.len()));
    } else {
        let rest = s.subrange(n, s.len() as int);
        assert(bucket.subrange(16 + offset, 16 + offset + n) =~= bucket.subrange(
            16,
            16 + d.len() as int,
        ).subrange(offset, offset + n));
        assert(shelf.number(k + 1) == shelf.first + k + 1);
        law_string_read_back(m, shelf, k + 1, 0, rest, length);
        assert(s.subrange(0, n) + rest =~= s);
    }
}

} // verus!
