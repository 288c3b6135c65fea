//! The writes of one flush to an array file (`table.f{n}i`): records appended
//! at its end and records changed in place.
use crate::aipsio;
use crate::bytes;
use crate::bytes::{push_uint, resize, uint_from};
use crate::ssmfile;
use crate::ssmfile::put_over;
use vstd::prelude::*;

verus! {

/// The bytes before the first record.
pub const ARRAY_START: usize = 16;

/// A record changed in place.
#[derive(Debug)]
struct Rewrite {
    at: usize,
    record: Vec<u8>,
}

/// An array file with the writes of one flush.
#[derive(Debug)]
pub struct ArrayFile {
    big_endian: bool,
    /// Records carry a reference count (file version > 0).
    refcount: bool,
    exists: bool,
    /// The contents, with at least the header.
    contents: Vec<u8>,
    appended: Vec<u8>,
    rewrites: Vec<Rewrite>,
}

/// What an [`ArrayFile`] says.
pub struct ArrayFileModel {
    pub big: bool,
    pub counted: bool,
    pub exists: bool,
    pub contents: Seq<u8>,
    pub appended: Seq<u8>,
    pub rewrites: Seq<(int, Seq<u8>)>,
}

spec fn rewrite_models(s: Seq<Rewrite>) -> Seq<(int, Seq<u8>)> {
    s.map_values(|w: Rewrite| (w.at as int, w.record@))
}

impl View for ArrayFile {
    type V = ArrayFileModel;

    closed spec fn view(&self) -> ArrayFileModel {
        ArrayFileModel {
            big: self.big_endian,
            counted: self.refcount,
            exists: self.exists,
            contents: self.contents@,
            appended: self.appended@,
            rewrites: rewrite_models(self.rewrites@),
        }
    }
}

/// The contents with at least the header.
pub open spec fn with_header(f: Seq<u8>) -> Seq<u8> {
    bytes::resized(
        f,
        if f.len() < ARRAY_START {
            ARRAY_START as nat
        } else {
            f.len()
        },
    )
}

/// Whether the records of a file carry a reference count.
pub open spec fn is_counted(f: Seq<u8>, big: bool) -> bool {
    f.len() >= ARRAY_START && bytes::uint_value(big, f.subrange(0, 4)) > 0
}

/// The contents with the records of `w` in their places, up to the `n`-th.
pub open spec fn rewritten(f: Seq<u8>, w: Seq<(int, Seq<u8>)>, n: nat) -> Seq<u8>
    decreases n,
{
    if n == 0 {
        f
    } else {
        ssmfile::overlay(rewritten(f, w, (n - 1) as nat), w[n - 1].0, w[n - 1].1)
    }
}

impl ArrayFileModel {
    /// Where the next appended record goes.
    pub open spec fn end(self) -> int {
        self.contents.len() + self.appended.len() as int
    }

    /// The bytes of a reference count.
    pub open spec fn count_bytes(self) -> Seq<u8> {
        if self.counted {
            aipsio::u32_bytes(self.big, 1)
        } else {
            Seq::empty()
        }
    }

    /// The length of a reference count.
    pub open spec fn count_len(self) -> int {
        if self.counted {
            4
        } else {
            0
        }
    }

    /// The records changed in place lie in the file.
    pub open spec fn inside(self) -> bool {
        &&& self.contents.len() >= ARRAY_START
        &&& forall|i: int|
            0 <= i < self.rewrites.len() ==> {
                &&& ARRAY_START <= (#[trigger] self.rewrites[i]).0
                &&& self.rewrites[i].0 + self.rewrites[i].1.len() <= self.end()
            }
    }

    /// The file after the writes: the header holds its length.
    pub open spec fn finished(self) -> Seq<u8> {
        ssmfile::overlay(
            rewritten(self.contents + self.appended, self.rewrites, self.rewrites.len()),
            4,
            aipsio::u64_bytes(self.big, (self.end() % 0x1_0000_0000_0000_0000) as u64),
        )
    }
}

impl ArrayFile {
    /// The array file with the given contents, or a new one.
    pub fn open(f0i: Option<&[u8]>, big_endian: bool) -> (r: ArrayFile)
        ensures
            r@.inside(),
            r@ == (match f0i {
                Some(f) => ArrayFileModel {
                    big: big_endian,
                    counted: is_counted(f@, big_endian),
                    exists: true,
                    contents: with_header(f@),
                    appended: Seq::empty(),
                    rewrites: Seq::empty(),
                },
                None => ArrayFileModel {
                    big: big_endian,
                    counted: false,
                    exists: false,
                    contents: with_header(Seq::empty()),
                    appended: Seq::empty(),
                    rewrites: Seq::empty(),
                },
            }),
    {
        let appended: Vec<u8> = Vec::new();
        let rewrites: Vec<Rewrite> = Vec::new();
        assert(appended@ =~= Seq::<u8>::empty());
        assert(rewrite_models(rewrites@) =~= Seq::<(int, Seq<u8>)>::empty());
        match f0i {
            None => {
                let none: Vec<u8> = Vec::new();
                assert(none@ =~= Seq::<u8>::empty());
                let contents = resize(none.as_slice(), ARRAY_START);
                ArrayFile {
                    big_endian,
                    refcount: false,
                    exists: false,
                    contents,
                    appended,
                    rewrites,
                }
            },
            Some(f) => {
                let n: usize = if f.len() < ARRAY_START {
                    ARRAY_START
                } else {
                    f.len()
                };
                let refcount: bool = f.len() >= ARRAY_START && uint_from(
                    big_endian,
                    vstd::slice::slice_subrange(f, 0, 4),
                ) > 0;
                let contents = resize(f, n);
                ArrayFile { big_endian, refcount, exists: true, contents, appended, rewrites }
            },
        }
    }

    /// Queue a record at the end; returns its offset.
    pub fn push(&mut self, record: &[u8]) -> (r: u64)
        requires
            old(self)@.inside(),
        ensures
            r == old(self)@.end() % 0x1_0000_0000_0000_0000,
            final(self)@ == (ArrayFileModel {
                appended: old(self)@.appended + old(self)@.count_bytes() + record@,
                ..old(self)@
            }),
            final(self)@.inside(),
    {
        let off: u64 = (self.contents.len() as u64).wrapping_add(self.appended.len() as u64);
        let ghost before = self.appended@;
        if self.refcount {
            push_uint(&mut self.appended, self.big_endian, 1, 4);
        }
        self.appended.extend_from_slice(record);
        assert(self.appended@ =~= before + self@.count_bytes() + record@);
        off
    }

    /// Queue records that carry their reference counts already.
    pub fn append(&mut self, records: &[u8])
        requires
            old(self)@.inside(),
        ensures
            final(self)@ == (ArrayFileModel {
                appended: old(self)@.appended + records@,
                ..old(self)@
            }),
            final(self)@.inside(),
    {
        let ghost before = self.appended@;
        self.appended.extend_from_slice(records);
        assert(self.appended@ =~= before + records@);
    }

    /// Queue a change of the record at `off` in place (same size).
    pub fn rewrite(&mut self, off: usize, record: Vec<u8>)
        requires
            old(self)@.inside(),
            ARRAY_START <= off,
            off + old(self)@.count_len() + record@.len() <= old(self)@.end(),
            off + old(self)@.count_len() <= usize::MAX,
        ensures
            final(self)@ == (ArrayFileModel {
                rewrites: old(self)@.rewrites.push((off + old(self)@.count_len(), record@)),
                ..old(self)@
            }),
            final(self)@.inside(),
    {
        let at: usize = off + if self.refcount {
            4
        } else {
            0
        };
        let ghost before = self.rewrites@;
        self.rewrites.push(Rewrite { at, record });
        assert(rewrite_models(self.rewrites@) =~= rewrite_models(before).push(
            (at as int, record@),
        ));
    }

    /// The file after everything queued, where there is anything to write.
    pub fn finish(self) -> (r: Option<Vec<u8>>)
        requires
            self@.inside(),
        ensures
            if self@.appended.len() == 0 && self@.rewrites.len() == 0 && self@.exists {
                r is None
            } else {
                r is Some && r->0@ == self@.finished()
            },
    {
        if self.appended.len() == 0 && self.rewrites.len() == 0 && self.exists {
            return None;
        }
        let ghost m = self@;
        let mut file = self.contents;
        file.extend_from_slice(self.appended.as_slice());
        assert(file@ =~= m.contents + m.appended);
        let mut i: usize = 0;
        while i < self.rewrites.len()
            invariant
                i <= self.rewrites@.len(),
                m == self@,
                m.inside(),
                m.rewrites == rewrite_models(self.rewrites@),
                file@.len() == m.end(),
                file@ == rewritten(m.contents + m.appended, m.rewrites, i as nat),
            decreases self.rewrites@.len() - i,
        {
            let w = &self.rewrites[i];
            assert(m.rewrites[i as int] == (w.at as int, w.record@));
            put_over(&mut file, w.at, w.record.as_slice());
            i = i + 1;
        }
        let mut piece: Vec<u8> = Vec::new();
        let end: u64 = file.len() as u64;
        push_uint(&mut piece, self.big_endian, end, 8);
        proof {
            bytes::lemma_uint_bytes_len(m.big, end as nat, 8);
            assert(piece@ =~= aipsio::u64_bytes(m.big, end));
        }
        put_over(&mut file, 4, piece.as_slice());
        Some(file)
    }
}

proof fn lemma_rewritten_len(f: Seq<u8>, w: Seq<(int, Seq<u8>)>, n: nat)
    ensures
        rewritten(f, w, n).len() == f.len(),
    decreases n,
{
    if n > 0 {
        lemma_rewritten_len(f, w, (n - 1) as nat);
    }
}

proof fn lemma_rewritten_apart(f: Seq<u8>, w: Seq<(int, Seq<u8>)>, n: nat, i: int)
    requires
        n <= w.len(),
        0 <= i < f.len(),
        forall|k: int|
            0 <= k < n ==> !((#[trigger] w[k]).0 <= i < w[k].0 + w[k].1.len()),
    ensures
        rewritten(f, w, n)[i] == f[i],
    decreases n,
{
    lemma_rewritten_len(f, w, n);
    if n > 0 {
        lemma_rewritten_apart(f, w, (n - 1) as nat, i);
        lemma_rewritten_len(f, w, (n - 1) as nat);
        assert(!(w[n - 1].0 <= i < w[n - 1].0 + w[n - 1].1.len()));
    }
}

/// Every byte behind the header that no record is written over stays as it
/// is, or is as it was appended.
pub proof fn law_other_bytes_kept(m: ArrayFileModel, i: int)
    requires
        m.inside(),
        12 <= i < m.end(),
        forall|k: int|
            0 <= k < m.rewrites.len() ==> !((#[trigger] m.rewrites[k]).0 <= i < m.rewrites[k].0
                + m.rewrites[k].1.len()),
    ensures
        m.finished().len() == m.end(),
        m.finished()[i] == (m.contents + m.appended)[i],
{
    let f = m.contents + m.appended;
    lemma_rewritten_len(f, m.rewrites, m.rewrites.len());
    lemma_rewritten_apart(f, m.rewrites, m.rewrites.len(), i);
    bytes::lemma_uint_bytes_len(m.big, (m.end() % 0x1_0000_0000_0000_0000) as nat, 8);
}

/// The last record changed in place stands in the file.
pub proof fn law_rewritten_record(m: ArrayFileModel)
    requires
        m.inside(),
        m.rewrites.len() > 0,
    ensures
        m.finished().subrange(
            m.rewrites.last().0,
            m.rewrites.last().0 + m.rewrites.last().1.len(),
        ) == m.rewrites.last().1,
{
    let f = m.contents + m.appended;
    let n = m.rewrites.len();
    let (at, rec) = m.rewrites[n - 1];
    lemma_rewritten_len(f, m.rewrites, n);
    lemma_rewritten_len(f, m.rewrites, (n - 1) as nat);
    bytes::lemma_uint_bytes_len(m.big, (m.end() % 0x1_0000_0000_0000_0000) as nat, 8);
    assert(m.finished().subrange(at, at + rec.len()) =~= rec);
}

/// The header of a written file holds the length of the file.
pub proof fn law_length_stored(m: ArrayFileModel)
    requires
        m.inside(),
        m.end() <= u64::MAX,
    ensures
        bytes::uint_value(m.big, m.finished().subrange(4, 12)) == m.finished().len(),
{
    let f = m.contents + m.appended;
    lemma_rewritten_len(f, m.rewrites, m.rewrites.len());
    bytes::lemma_spans();
    bytes::lemma_uint_bytes_len(m.big, m.end() as nat, 8);
    bytes::law_uint_round_trip(m.big, m.end() as nat, 8);
    assert(m.finished().subrange(4, 12) =~= aipsio::u64_bytes(m.big, m.end() as u64));
}

/// A record that was pushed stands in the written file behind the place that
/// was returned for it, with a reference count of one before it where the
/// file's records have counts; what was appended before stays.
pub proof fn law_pushed_record(m: ArrayFileModel, record: Seq<u8>)
    requires
        m.inside(),
        m.rewrites.len() == 0,
        m.end() + 4 + record.len() <= u64::MAX,
    ensures
        ({
            let n = ArrayFileModel { appended: m.appended + m.count_bytes() + record, ..m };
            let at = m.end() % 0x1_0000_0000_0000_0000;
            let start = at + if m.counted {
                4int
            } else {
                0
            };
            &&& n.finished().len() == start + record.len()
            &&& n.finished().subrange(start, start + record.len()) == record
            &&& m.counted ==> bytes::uint_value(m.big, n.finished().subrange(at, at + 4)) == 1
            &&& n.finished().subrange(16, at) == (m.contents + m.appended).subrange(16, at)
        }),
{
    let n = ArrayFileModel { appended: m.appended + m.count_bytes() + record, ..m };
    let at = m.end();
    let f = n.finished();
    bytes::lemma_spans();
    bytes::lemma_uint_bytes_len(m.big, 1, 4);
    bytes::law_uint_round_trip(m.big, 1, 4);
    bytes::lemma_uint_bytes_len(m.big, (n.end() % 0x1_0000_0000_0000_0000) as nat, 8);
    assert(rewritten(n.contents + n.appended, n.rewrites, 0) == n.contents + n.appended);
    let start = at + m.count_bytes().len();
    assert(f.subrange(start, start + record.len()) =~= record);
    assert(f.subrange(16, at) =~= (m.contents + m.appended).subrange(16, at));
    if m.counted {
        assert(f.subrange(at, at + 4) =~= aipsio::u32_bytes(m.big, 1));
    }
}

} // verus!
