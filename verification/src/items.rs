//! Lists of numbers in a stream: writing, and what reading gives back.
use crate::aipsio;
use crate::aipsio::{AipsIoFault, Cursor, Writer};
use crate::bytes;
use crate::recordio;
use crate::recordio::Element;
use vstd::prelude::*;

verus! {

/// An element with a fixed number of bytes.
pub trait Item: Element {
    /// The number of bytes of an element.
    spec fn width() -> nat;

    /// The bytes of an element.
    spec fn bytes(big: bool, v: Self::V) -> Seq<u8>;

    /// Write one element.
    fn write(&self, w: &mut Writer)
        ensures
            final(w)@ == old(w)@.put(Self::bytes(old(w)@.big, self@)),
    ;

    /// A written element is read back.
    proof fn lemma_round_trip(c: Cursor, v: Self::V)
        requires
            0 <= c.pos,
            c.holds(Self::bytes(c.big, v)),
        ensures
            Self::bytes(c.big, v).len() == Self::width(),
            Self::at(c) == Ok::<(Self::V, Cursor), (AipsIoFault, Cursor)>(
                (v, c.skip(Self::width() as int)),
            ),
    ;

    /// An element has its fixed number of bytes.
    proof fn lemma_width(big: bool, v: Self::V)
        ensures
            Self::bytes(big, v).len() == Self::width(),
    ;
}

impl Item for u8 {
    open spec fn width() -> nat {
        1
    }

    open spec fn bytes(_big: bool, v: u8) -> Seq<u8> {
        aipsio::u8_bytes(v)
    }

    fn write(&self, w: &mut Writer) {
        w.put_u8(*self);
    }

    proof fn lemma_round_trip(c: Cursor, v: u8) {
        Self::lemma_width(c.big, v);
        aipsio::law_u8_round_trip(c, v);
    }

    proof fn lemma_width(big: bool, v: u8) {
        
    }
}

impl Item for i16 {
    open spec fn width() -> nat {
        2
    }

    open spec fn bytes(big: bool, v: i16) -> Seq<u8> {
        aipsio::i16_bytes(big, v)
    }

    fn write(&self, w: &mut Writer) {
        w.put_i16(*self);
    }

    proof fn lemma_round_trip(c: Cursor, v: i16) {
        Self::lemma_width(c.big, v);
        aipsio::law_i16_round_trip(c, v);
    }

    proof fn lemma_width(big: bool, v: i16) {
        bytes::lemma_uint_bytes_len(big, bytes::pattern16(v) as nat, 2);
    }
}

impl Item for u16 {
    open spec fn width() -> nat {
        2
    }

    open spec fn bytes(big: bool, v: u16) -> Seq<u8> {
        aipsio::u16_bytes(big, v)
    }

    fn write(&self, w: &mut Writer) {
        w.put_u16(*self);
    }

    proof fn lemma_round_trip(c: Cursor, v: u16) {
        Self::lemma_width(c.big, v);
        aipsio::law_u16_round_trip(c, v);
    }

    proof fn lemma_width(big: bool, v: u16) {
        bytes::lemma_uint_bytes_len(big, v as nat, 2);
    }
}

impl Item for i32 {
    open spec fn width() -> nat {
        4
    }

    open spec fn bytes(big: bool, v: i32) -> Seq<u8> {
        aipsio::i32_bytes(big, v)
    }

    fn write(&self, w: &mut Writer) {
        w.put_i32(*self);
    }

    proof fn lemma_round_trip(c: Cursor, v: i32) {
        Self::lemma_width(c.big, v);
        aipsio::law_i32_round_trip(c, v);
    }

    proof fn lemma_width(big: bool, v: i32) {
        bytes::lemma_uint_bytes_len(big, bytes::pattern32(v) as nat, 4);
    }
}

impl Item for u32 {
    open spec fn width() -> nat {
        4
    }

    open spec fn bytes(big: bool, v: u32) -> Seq<u8> {
        aipsio::u32_bytes(big, v)
    }

    fn write(&self, w: &mut Writer) {
        w.put_u32(*self);
    }

    proof fn lemma_round_trip(c: Cursor, v: u32) {
        Self::lemma_width(c.big, v);
        aipsio::law_u32_round_trip(c, v);
    }

    proof fn lemma_width(big: bool, v: u32) {
        bytes::lemma_uint_bytes_len(big, v as nat, 4);
    }
}

impl Item for i64 {
    open spec fn width() -> nat {
        8
    }

    open spec fn bytes(big: bool, v: i64) -> Seq<u8> {
        aipsio::i64_bytes(big, v)
    }

    fn write(&self, w: &mut Writer) {
        w.put_i64(*self);
    }

    proof fn lemma_round_trip(c: Cursor, v: i64) {
        Self::lemma_width(c.big, v);
        aipsio::law_i64_round_trip(c, v);
    }

    proof fn lemma_width(big: bool, v: i64) {
        bytes::lemma_uint_bytes_len(big, bytes::pattern64(v) as nat, 8);
    }
}

impl Item for u64 {
    open spec fn width() -> nat {
        8
    }

    open spec fn bytes(big: bool, v: u64) -> Seq<u8> {
        aipsio::u64_bytes(big, v)
    }

    fn write(&self, w: &mut Writer) {
        w.put_u64(*self);
    }

    proof fn lemma_round_trip(c: Cursor, v: u64) {
        Self::lemma_width(c.big, v);
        aipsio::law_u64_round_trip(c, v);
    }

    proof fn lemma_width(big: bool, v: u64) {
        bytes::lemma_uint_bytes_len(big, v as nat, 8);
    }
}

impl Item for (u32, u32) {
    open spec fn width() -> nat {
        8
    }

    open spec fn bytes(big: bool, v: (u32, u32)) -> Seq<u8> {
        aipsio::u32_bytes(big, v.0) + aipsio::u32_bytes(big, v.1)
    }

    fn write(&self, w: &mut Writer) {
        let ghost s = w@;
        w.put_u32(self.0);
        w.put_u32(self.1);
        proof {
            aipsio::lemma_sheet_put(
                s,
                aipsio::u32_bytes(s.big, self.0),
                aipsio::u32_bytes(s.big, self.1),
            );
        }
    }

    proof fn lemma_round_trip(c: Cursor, v: (u32, u32)) {
        Self::lemma_width(c.big, v);
        bytes::lemma_uint_bytes_len(c.big, v.0 as nat, 4);
        aipsio::lemma_holds_concat(
            c,
            aipsio::u32_bytes(c.big, v.0),
            aipsio::u32_bytes(c.big, v.1),
        );
        aipsio::law_u32_round_trip(c, v.0);
        aipsio::law_u32_round_trip(c.skip(4), v.1);
    }

    proof fn lemma_width(big: bool, v: (u32, u32)) {
        bytes::lemma_uint_bytes_len(big, v.0 as nat, 4);
        bytes::lemma_uint_bytes_len(big, v.1 as nat, 4);
    }
}

impl Item for (u64, u64) {
    open spec fn width() -> nat {
        16
    }

    open spec fn bytes(big: bool, v: (u64, u64)) -> Seq<u8> {
        aipsio::u64_bytes(big, v.0) + aipsio::u64_bytes(big, v.1)
    }

    fn write(&self, w: &mut Writer) {
        let ghost s = w@;
        w.put_u64(self.0);
        w.put_u64(self.1);
        proof {
            aipsio::lemma_sheet_put(
                s,
                aipsio::u64_bytes(s.big, self.0),
                aipsio::u64_bytes(s.big, self.1),
            );
        }
    }

    proof fn lemma_round_trip(c: Cursor, v: (u64, u64)) {
        Self::lemma_width(c.big, v);
        bytes::lemma_uint_bytes_len(c.big, v.0 as nat, 8);
        aipsio::lemma_holds_concat(
            c,
            aipsio::u64_bytes(c.big, v.0),
            aipsio::u64_bytes(c.big, v.1),
        );
        aipsio::law_u64_round_trip(c, v.0);
        aipsio::law_u64_round_trip(c.skip(8), v.1);
    }

    proof fn lemma_width(big: bool, v: (u64, u64)) {
        bytes::lemma_uint_bytes_len(big, v.0 as nat, 8);
        bytes::lemma_uint_bytes_len(big, v.1 as nat, 8);
    }
}

/// The bytes of the first `n` elements of a list.
pub open spec fn items_bytes<T: Item>(big: bool, s: Seq<T::V>, n: nat) -> Seq<u8>
    decreases n,
{
    if n == 0 {
        Seq::empty()
    } else {
        items_bytes::<T>(big, s, (n - 1) as nat) + T::bytes(big, s[n - 1])
    }
}

/// The bytes of the elements of a list from `k` on.
pub open spec fn items_rest<T: Item>(big: bool, s: Seq<T::V>, k: nat) -> Seq<u8>
    decreases s.len() - k,
{
    if k >= s.len() {
        Seq::empty()
    } else {
        T::bytes(big, s[k as int]) + items_rest::<T>(big, s, k + 1)
    }
}

/// A list has the bytes of all its elements.
pub proof fn lemma_items_len<T: Item>(big: bool, s: Seq<T::V>, n: nat)
    ensures
        items_bytes::<T>(big, s, n).len() == n * T::width(),
    decreases n,
{
    if n > 0 {
        let m = (n - 1) as nat;
        let w = T::width();
        lemma_items_len::<T>(big, s, m);
        T::lemma_width(big, s[n - 1]);
        assert(m * w + w == n * w) by (nonlinear_arith)
            requires
                n == m + 1,
        ;
    } else {
        assert(0 * T::width() == 0);
    }
}

pub proof fn lemma_items_split<T: Item>(big: bool, s: Seq<T::V>, k: nat)
    requires
        k <= s.len(),
    ensures
        items_bytes::<T>(big, s, s.len()) == items_bytes::<T>(big, s, k) + items_rest::<T>(
            big,
            s,
            k,
        ),
    decreases s.len() - k,
{
    let b = items_bytes::<T>(big, s, k);
    if k < s.len() {
        lemma_items_split::<T>(big, s, k + 1);
        let x = T::bytes(big, s[k as int]);
        let r = items_rest::<T>(big, s, k + 1);
        assert((b + x) + r =~= b + (x + r));
    } else {
        assert(b + items_rest::<T>(big, s, k) =~= b);
    }
}

proof fn lemma_items_rest<T: Item>(c: Cursor, s: Seq<T::V>, k: nat, acc: Seq<T::V>)
    requires
        0 <= c.pos,
        k <= s.len(),
        c.holds(items_rest::<T>(c.big, s, k)),
    ensures
        recordio::elements_at::<T>(c, (s.len() - k) as nat, acc) == Ok::<
            (Seq<T::V>, Cursor),
            (AipsIoFault, Cursor),
        >(
            (
                acc + s.subrange(k as int, s.len() as int),
                c.skip(items_rest::<T>(c.big, s, k).len() as int),
            ),
        ),
    decreases s.len() - k,
{
    let n = s.len();
    if k == n {
        assert(acc + s.subrange(k as int, n as int) =~= acc);
    } else {
        let v = s[k as int];
        let b = T::bytes(c.big, v);
        let r = items_rest::<T>(c.big, s, k + 1);
        aipsio::lemma_holds_concat(c, b, r);
        T::lemma_round_trip(c, v);
        let d = c.skip(b.len() as int);
        lemma_items_rest::<T>(d, s, k + 1, acc.push(v));
        assert(acc.push(v) + s.subrange(k as int + 1, n as int) =~= acc + s.subrange(
            k as int,
            n as int,
        ));
        assert(d.skip(r.len() as int) == c.skip((b + r).len() as int));
    }
}

/// A written list is read back.
pub proof fn law_items_round_trip<T: Item>(c: Cursor, s: Seq<T::V>)
    requires
        0 <= c.pos,
        c.holds(items_bytes::<T>(c.big, s, s.len())),
    ensures
        recordio::elements_at::<T>(c, s.len(), Seq::empty()) == Ok::<
            (Seq<T::V>, Cursor),
            (AipsIoFault, Cursor),
        >((s, c.skip(items_bytes::<T>(c.big, s, s.len()).len() as int))),
{
    lemma_items_split::<T>(c.big, s, 0);
    assert(items_bytes::<T>(c.big, s, s.len()) =~= items_rest::<T>(c.big, s, 0));
    lemma_items_rest::<T>(c, s, 0, Seq::empty());
    assert(Seq::<T::V>::empty() + s.subrange(0, s.len() as int) =~= s);
}

/// Write a list.
pub(crate) fn write_items<T: Item>(w: &mut Writer, values: &[T])
    ensures
        final(w)@ == old(w)@.put(
            items_bytes::<T>(old(w)@.big, recordio::views(values@), values@.len()),
        ),
{
    let ghost start = w@;
    let ghost s = recordio::views(values@);
    let mut i: usize = 0;
    proof {
        aipsio::lemma_sheet_put_nothing(start);
    }
    while i < values.len()
        invariant
            i <= values@.len(),
            s == recordio::views(values@),
            w@ == start.put(items_bytes::<T>(start.big, s, i as nat)),
        decreases values@.len() - i,
    {
        values[i].write(w);
        proof {
            aipsio::lemma_sheet_put(
                start,
                items_bytes::<T>(start.big, s, i as nat),
                T::bytes(start.big, s[i as int]),
            );
        }
        i = i + 1;
    }
}

} // verus!
