//! Fixed-width unsigned integers as byte strings, in either byte order.
use vstd::prelude::*;

verus! {

/// `256^n`: the number of values that fit `n` bytes.
pub open spec fn byte_span(n: nat) -> nat
    decreases n,
{
    if n == 0 {
        1
    } else {
        256 * byte_span((n - 1) as nat)
    }
}

/// The number whose base-256 digits are `s`, least significant first.
pub open spec fn le_value(s: Seq<u8>) -> nat
    decreases s.len(),
{
    if s.len() == 0 {
        0
    } else {
        s[0] as nat + 256 * le_value(s.subrange(1, s.len() as int))
    }
}

/// The `n` low base-256 digits of `v`, least significant first.
pub open spec fn le_digits(v: nat, n: nat) -> Seq<u8>
    decreases n,
{
    if n == 0 {
        Seq::empty()
    } else {
        seq![(v % 256) as u8] + le_digits(v / 256, (n - 1) as nat)
    }
}

/// The unsigned integer stored in `s`; `big` selects big-endian order.
pub open spec fn uint_value(big: bool, s: Seq<u8>) -> nat {
    if big {
        le_value(s.reverse())
    } else {
        le_value(s)
    }
}

/// `v` stored in `n` bytes; `big` selects big-endian order.
pub open spec fn uint_bytes(big: bool, v: nat, n: nat) -> Seq<u8> {
    if big {
        le_digits(v, n).reverse()
    } else {
        le_digits(v, n)
    }
}

/// The low 32 bits of a length, as stored in a 32-bit length field.
pub open spec fn low32(n: int) -> u32 {
    (n % 0x1_0000_0000) as u32
}

/// Two's complement: the unsigned 16-bit pattern of a signed value.
pub open spec fn pattern16(v: i16) -> u16 {
    if v < 0 {
        (v + 0x1_0000) as u16
    } else {
        v as u16
    }
}

/// Two's complement: the signed value of an unsigned 16-bit pattern.
pub open spec fn signed16(v: u16) -> i16 {
    if v >= 0x8000 {
        (v - 0x1_0000) as i16
    } else {
        v as i16
    }
}

/// Two's complement: the unsigned 32-bit pattern of a signed value.
pub open spec fn pattern32(v: i32) -> u32 {
    if v < 0 {
        (v + 0x1_0000_0000) as u32
    } else {
        v as u32
    }
}

/// Two's complement: the signed value of an unsigned 32-bit pattern.
pub open spec fn signed32(v: u32) -> i32 {
    if v >= 0x8000_0000 {
        (v - 0x1_0000_0000) as i32
    } else {
        v as i32
    }
}

/// Two's complement: the unsigned 64-bit pattern of a signed value.
pub open spec fn pattern64(v: i64) -> u64 {
    if v < 0 {
        (v + 0x1_0000_0000_0000_0000) as u64
    } else {
        v as u64
    }
}

/// Two's complement: the signed value of an unsigned 64-bit pattern.
pub open spec fn signed64(v: u64) -> i64 {
    if v >= 0x8000_0000_0000_0000 {
        (v - 0x1_0000_0000_0000_0000) as i64
    } else {
        v as i64
    }
}

/// Bit `k` of a byte, counted from the least significant.
pub open spec fn bit(b: u8, k: int) -> bool {
    (b >> (k as u8)) & 1u8 == 1u8
}

/// The `n` bits packed in `s`, eight to a byte, least significant first.
pub open spec fn unpacked(s: Seq<u8>, n: nat) -> Seq<bool> {
    Seq::new(n, |i: int| bit(s[i / 8], i % 8))
}

pub proof fn lemma_spans()
    ensures
        byte_span(1) == 0x100,
        byte_span(2) == 0x1_0000,
        byte_span(4) == 0x1_0000_0000,
        byte_span(8) == 0x1_0000_0000_0000_0000,
{
    reveal_with_fuel(byte_span, 9);
}

pub proof fn lemma_digits_len(v: nat, n: nat)
    ensures
        le_digits(v, n).len() == n,
    decreases n,
{
    if n > 0 {
        lemma_digits_len(v / 256, (n - 1) as nat);
    }
}

pub proof fn lemma_uint_bytes_len(big: bool, v: nat, n: nat)
    ensures
        uint_bytes(big, v, n).len() == n,
{
    lemma_digits_len(v, n);
}

pub proof fn lemma_value_bound(s: Seq<u8>)
    ensures
        le_value(s) < byte_span(s.len()),
    decreases s.len(),
{
    if s.len() > 0 {
        lemma_value_bound(s.subrange(1, s.len() as int));
    }
}

pub proof fn lemma_uint_bound(big: bool, s: Seq<u8>)
    ensures
        uint_value(big, s) < byte_span(s.len()),
{
    lemma_value_bound(s);
    lemma_value_bound(s.reverse());
}

pub proof fn lemma_value_of_digits(v: nat, n: nat)
    requires
        v < byte_span(n),
    ensures
        le_value(le_digits(v, n)) == v,
    decreases n,
{
    if n > 0 {
        let m = (n - 1) as nat;
        lemma_digits_len(v / 256, m);
        let d = le_digits(v, n);
        assert(v / 256 < byte_span(m));
        lemma_value_of_digits(v / 256, m);
        assert(d.subrange(1, d.len() as int) =~= le_digits(v / 256, m));
        assert(v == v % 256 + 256 * (v / 256));
    }
}

pub proof fn lemma_digits_of_value(s: Seq<u8>)
    ensures
        le_digits(le_value(s), s.len()) == s,
    decreases s.len(),
{
    if s.len() > 0 {
        let t = s.subrange(1, s.len() as int);
        lemma_digits_of_value(t);
        let v = le_value(s);
        assert(v % 256 == s[0] as nat && v / 256 == le_value(t));
        assert(le_digits(v, s.len()) =~= s);
    } else {
        assert(le_digits(le_value(s), s.len()) =~= s);
    }
}

/// Reading back a stored integer gives that integer.
pub proof fn law_uint_round_trip(big: bool, v: nat, n: nat)
    requires
        v < byte_span(n),
    ensures
        uint_value(big, uint_bytes(big, v, n)) == v,
{
    lemma_value_of_digits(v, n);
    let d = le_digits(v, n);
    assert(d.reverse().reverse() =~= d);
}

/// Storing the integer read from `s` in as many bytes gives `s` back.
pub proof fn law_bytes_round_trip(big: bool, s: Seq<u8>)
    ensures
        uint_bytes(big, uint_value(big, s), s.len()) == s,
{
    lemma_digits_of_value(s);
    lemma_digits_of_value(s.reverse());
    assert(s.reverse().reverse() =~= s);
}

proof fn lemma_digit(v: nat, n: nat, i: nat)
    requires
        i < n,
    ensures
        le_digits(v, n).len() == n,
        le_digits(v, n)[i as int] == (v / byte_span(i)) % 256,
    decreases n,
{
    lemma_digits_len(v, n);
    lemma_digits_len(v / 256, (n - 1) as nat);
    let d = le_digits(v, n);
    let rest = le_digits(v / 256, (n - 1) as nat);
    assert(d == seq![(v % 256) as u8] + rest);
    if i > 0 {
        let j = (i - 1) as nat;
        let span = byte_span(j);
        lemma_digit(v / 256, (n - 1) as nat, j);
        lemma_span_positive(j);
        vstd::arithmetic::div_mod::lemma_div_denominator(v as int, 256, span as int);
        assert(byte_span(i) == 256 * span);
        assert((v / 256) / span == v / (256 * span));
        assert(d[i as int] == rest[j as int]);
    } else {
        assert(byte_span(i) == 1);
        assert(v / 1 == v);
        assert(d[0] == (v % 256) as u8);
    }
}

proof fn lemma_span_positive(n: nat)
    ensures
        byte_span(n) > 0,
    decreases n,
{
    if n > 0 {
        lemma_span_positive((n - 1) as nat);
    }
}

/// An integer is stored by its base-256 digits: the digit of `256^i` is `i`
/// bytes from the start in little-endian order, and `i` bytes from the last one
/// in big-endian order.
pub proof fn law_digit_places(v: nat, n: nat, i: nat)
    requires
        i < n,
    ensures
        uint_bytes(false, v, n).len() == n && uint_bytes(true, v, n).len() == n,
        uint_bytes(false, v, n)[i as int] == (v / byte_span(i)) % 256,
        uint_bytes(true, v, n)[n - 1 - i] == (v / byte_span(i)) % 256,
{
    lemma_digit(v, n, i);
}

/// Two's complement patterns equal their values up to a multiple of the number
/// of patterns.
pub proof fn law_patterns(a: i16, b: i32, c: i64)
    ensures
        pattern16(a) == a as int % 0x1_0000,
        pattern32(b) == b as int % 0x1_0000_0000,
        pattern64(c) == c as int % 0x1_0000_0000_0000_0000,
{
}

/// Bit `k` of a byte is its binary digit of `2^k`.
pub proof fn law_bits(b: u8)
    ensures
        bit(b, 0) == (b % 2 == 1),
        bit(b, 1) == (b / 2 % 2 == 1),
        bit(b, 2) == (b / 4 % 2 == 1),
        bit(b, 3) == (b / 8 % 2 == 1),
        bit(b, 4) == (b / 16 % 2 == 1),
        bit(b, 5) == (b / 32 % 2 == 1),
        bit(b, 6) == (b / 64 % 2 == 1),
        bit(b, 7) == (b / 128 % 2 == 1),
{
    assert((b >> 0) & 1 == b % 2 && (b >> 1) & 1 == b / 2 % 2 && (b >> 2) & 1 == b / 4 % 2 && (b
        >> 3) & 1 == b / 8 % 2 && (b >> 4) & 1 == b / 16 % 2 && (b >> 5) & 1 == b / 32 % 2 && (b
        >> 6) & 1 == b / 64 % 2 && (b >> 7) & 1 == b / 128 % 2) by (bit_vector);
}

/// The two's complement mappings undo each other.
pub proof fn law_twos_complement(a: i16, b: i32, c: i64, x: u16, y: u32, z: u64)
    ensures
        signed16(pattern16(a)) == a,
        signed32(pattern32(b)) == b,
        signed64(pattern64(c)) == c,
        pattern16(signed16(x)) == x,
        pattern32(signed32(y)) == y,
        pattern64(signed64(z)) == z,
{
}

/// The integer stored in the (at most eight) bytes of `b`.
pub fn uint_from(big: bool, b: &[u8]) -> (r: u64)
    requires
        b@.len() <= 8,
    ensures
        r == uint_value(big, b@),
        r < byte_span(b@.len()),
{
    let n: usize = b.len();
    let mut acc: u64 = 0;
    if big {
        let mut i: usize = 0;
        while i < n
            invariant
                i <= n,
                n == b@.len(),
                n <= 8,
                acc == le_value(b@.subrange(0, i as int).reverse()),
            decreases n - i,
        {
            let ghost head = b@.subrange(0, i as int).reverse();
            let ghost next = b@.subrange(0, i + 1).reverse();
            proof {
                assert(next.subrange(1, next.len() as int) =~= head);
                assert(next[0] == b@[i as int]);
                lemma_value_bound(next);
                reveal_with_fuel(byte_span, 9);
            }
            acc = acc * 256 + b[i] as u64;
            i = i + 1;
        }
        assert(b@.subrange(0, n as int) =~= b@);
    } else {
        let mut i: usize = n;
        while i > 0
            invariant
                i <= n,
                n == b@.len(),
                n <= 8,
                acc == le_value(b@.subrange(i as int, n as int)),
            decreases i,
        {
            let ghost tail = b@.subrange(i as int, n as int);
            let ghost next = b@.subrange(i - 1, n as int);
            proof {
                assert(next.subrange(1, next.len() as int) =~= tail);
                lemma_value_bound(next);
                reveal_with_fuel(byte_span, 9);
            }
            i = i - 1;
            acc = acc * 256 + b[i] as u64;
        }
        assert(b@.subrange(0, n as int) =~= b@);
    }
    proof {
        lemma_uint_bound(big, b@);
    }
    acc
}

/// Append the low `n` bytes of `v`.
pub fn push_uint(out: &mut Vec<u8>, big: bool, v: u64, n: usize)
    ensures
        final(out)@ == old(out)@ + uint_bytes(big, v as nat, n as nat),
{
    let mut digits: Vec<u8> = Vec::new();
    let mut rest: u64 = v;
    let mut i: usize = 0;
    while i < n
        invariant
            i <= n,
            digits@.len() == i,
            le_digits(v as nat, n as nat) == digits@ + le_digits(rest as nat, (n - i) as nat),
        decreases n - i,
    {
        let ghost before = digits@;
        digits.push((rest % 256) as u8);
        proof {
            assert(before + le_digits(rest as nat, (n - i) as nat) =~= digits@ + le_digits(
                (rest / 256) as nat,
                (n - i - 1) as nat,
            ));
        }
        rest = rest / 256;
        i = i + 1;
    }
    assert(le_digits(v as nat, n as nat) =~= digits@);
    let ghost start = out@;
    if big {
        let mut k: usize = n;
        while k > 0
            invariant
                k <= n,
                n == digits@.len(),
                out@ == start + digits@.subrange(k as int, n as int).reverse(),
            decreases k,
        {
            k = k - 1;
            let ghost before = out@;
            out.push(digits[k]);
            proof {
                let a = digits@.subrange(k as int, n as int);
                let b = digits@.subrange(k + 1, n as int);
                assert(a.reverse() =~= b.reverse().push(digits@[k as int]));
                assert(out@ =~= start + a.reverse());
            }
        }
        assert(digits@.subrange(0, n as int) =~= digits@);
    } else {
        out.append(&mut digits);
    }
}

/// The low 32 bits of a length.
pub fn length32(n: usize) -> (r: u32)
    ensures
        r == low32(n as int),
{
    (n as u64 % 0x1_0000_0000) as u32
}

pub fn to_pattern16(v: i16) -> (r: u16)
    ensures
        r == pattern16(v),
{
    if v < 0 {
        (v as i32 + 0x1_0000) as u16
    } else {
        v as u16
    }
}

pub fn to_signed16(v: u16) -> (r: i16)
    ensures
        r == signed16(v),
{
    if v >= 0x8000 {
        (v as i32 - 0x1_0000) as i16
    } else {
        v as i16
    }
}

pub fn to_pattern32(v: i32) -> (r: u32)
    ensures
        r == pattern32(v),
{
    if v < 0 {
        (v as i64 + 0x1_0000_0000) as u32
    } else {
        v as u32
    }
}

pub fn to_signed32(v: u32) -> (r: i32)
    ensures
        r == signed32(v),
{
    if v >= 0x8000_0000 {
        (v as i64 - 0x1_0000_0000) as i32
    } else {
        v as i32
    }
}

pub fn to_pattern64(v: i64) -> (r: u64)
    ensures
        r == pattern64(v),
{
    if v < 0 {
        (v as i128 + 0x1_0000_0000_0000_0000) as u64
    } else {
        v as u64
    }
}

pub fn to_signed64(v: u64) -> (r: i64)
    ensures
        r == signed64(v),
{
    if v >= 0x8000_0000_0000_0000 {
        (v as i128 - 0x1_0000_0000_0000_0000) as i64
    } else {
        v as i64
    }
}

/// The `n` bits packed in `s`, eight to a byte, least significant first.
pub fn unpack_bits(s: &[u8], n: usize) -> (r: Vec<bool>)
    requires
        n <= 8 * s@.len(),
    ensures
        r@ == unpacked(s@, n as nat),
{
    let mut out: Vec<bool> = Vec::new();
    let mut i: usize = 0;
    while i < n
        invariant
            i <= n,
            n <= 8 * s@.len(),
            out@.len() == i,
            forall|k: int| 0 <= k < i ==> out@[k] == bit(s@[k / 8], k % 8),
        decreases n - i,
    {
        let k: u8 = (i % 8) as u8;
        out.push((s[i / 8] >> k) & 1u8 == 1u8);
        i = i + 1;
    }
    assert(out@ =~= unpacked(s@, n as nat));
    out
}

/// The value of bit `k` of a byte.
pub open spec fn weight(on: bool, k: u8) -> u8 {
    if on {
        1u8 << k
    } else {
        0u8
    }
}

/// Whether `bits` has a set bit at `i`.
pub open spec fn set_at(bits: Seq<bool>, i: int) -> bool {
    0 <= i < bits.len() && bits[i]
}

/// The byte of the eight bits from `i` on, least significant first; bits past
/// the end are zero.
pub open spec fn eight_bits(bits: Seq<bool>, i: int) -> u8 {
    weight(set_at(bits, i), 0) | weight(set_at(bits, i + 1), 1) | weight(set_at(bits, i + 2), 2)
        | weight(set_at(bits, i + 3), 3) | weight(set_at(bits, i + 4), 4) | weight(
        set_at(bits, i + 5),
        5,
    ) | weight(set_at(bits, i + 6), 6) | weight(set_at(bits, i + 7), 7)
}

/// Bits packed eight to a byte, least significant first.
pub open spec fn packed(bits: Seq<bool>) -> Seq<u8> {
    Seq::new(((bits.len() + 7) / 8) as nat, |j: int| eight_bits(bits, 8 * j))
}

proof fn lemma_weights(
    b0: bool,
    b1: bool,
    b2: bool,
    b3: bool,
    b4: bool,
    b5: bool,
    b6: bool,
    b7: bool,
)
    ensures
        ({
            let b = weight(b0, 0) | weight(b1, 1) | weight(b2, 2) | weight(b3, 3) | weight(b4, 4)
                | weight(b5, 5) | weight(b6, 6) | weight(b7, 7);
            &&& bit(b, 0) == b0
            &&& bit(b, 1) == b1
            &&& bit(b, 2) == b2
            &&& bit(b, 3) == b3
            &&& bit(b, 4) == b4
            &&& bit(b, 5) == b5
            &&& bit(b, 6) == b6
            &&& bit(b, 7) == b7
        }),
{
    let b = weight(b0, 0) | weight(b1, 1) | weight(b2, 2) | weight(b3, 3) | weight(b4, 4) | weight(
        b5,
        5,
    ) | weight(b6, 6) | weight(b7, 7);
    assert(((b >> 0u8) & 1u8 == 1u8) == b0 && ((b >> 1u8) & 1u8 == 1u8) == b1 && ((b >> 2u8) & 1u8
        == 1u8) == b2 && ((b >> 3u8) & 1u8 == 1u8) == b3 && ((b >> 4u8) & 1u8 == 1u8) == b4 && ((b
        >> 5u8) & 1u8 == 1u8) == b5 && ((b >> 6u8) & 1u8 == 1u8) == b6 && ((b >> 7u8) & 1u8 == 1u8)
        == b7) by (bit_vector)
        requires
            b == (if b0 { 1u8 << 0u8 } else { 0u8 }) | (if b1 { 1u8 << 1u8 } else { 0u8 }) | (if b2 {
                1u8 << 2u8
            } else { 0u8 }) | (if b3 { 1u8 << 3u8 } else { 0u8 }) | (if b4 { 1u8 << 4u8 } else {
                0u8
            }) | (if b5 { 1u8 << 5u8 } else { 0u8 }) | (if b6 { 1u8 << 6u8 } else { 0u8 }) | (if b7 {
                1u8 << 7u8
            } else { 0u8 }),
    ;
}

/// A bit of a packed byte is the bit that was packed there.
pub proof fn lemma_eight_bits(bits: Seq<bool>, i: int, k: int)
    requires
        0 <= k < 8,
    ensures
        bit(eight_bits(bits, i), k) == set_at(bits, i + k),
{
    lemma_weights(
        set_at(bits, i),
        set_at(bits, i + 1),
        set_at(bits, i + 2),
        set_at(bits, i + 3),
        set_at(bits, i + 4),
        set_at(bits, i + 5),
        set_at(bits, i + 6),
        set_at(bits, i + 7),
    );
}

/// A bit of packed bits is the bit that was packed there.
pub proof fn lemma_packed_bit(bits: Seq<bool>, i: int)
    requires
        0 <= i < bits.len(),
    ensures
        i / 8 < packed(bits).len(),
        bit(packed(bits)[i / 8], i % 8) == bits[i],
{
    lemma_eight_bits(bits, 8 * (i / 8), i % 8);
}

/// Unpacking packed bits gives them back.
pub proof fn law_packed_round_trip(bits: Seq<bool>)
    ensures
        unpacked(packed(bits), bits.len()) == bits,
{
    assert forall|i: int| 0 <= i < bits.len() implies unpacked(packed(bits), bits.len())[i]
        == bits[i] by {
        lemma_packed_bit(bits, i);
    }
    assert(unpacked(packed(bits), bits.len()) =~= bits);
}

fn weight_of(bits: &[bool], i: usize, k: u8) -> (r: u8)
    requires
        k < 8,
    ensures
        r == weight(set_at(bits@, i + k), k),
{
    if i < bits.len() && (k as usize) < bits.len() - i && bits[i + k as usize] {
        1u8 << k
    } else {
        0
    }
}

/// Pack bits eight to a byte, least significant first.
pub fn pack_bits(bits: &[bool]) -> (r: Vec<u8>)
    ensures
        r@ == packed(bits@),
{
    let mut out: Vec<u8> = Vec::new();
    let mut i: usize = 0;
    let n: usize = bits.len();
    let m: usize = n / 8 + (if n % 8 == 0 { 0 } else { 1 });
    while i < m
        invariant
            i <= m,
            n == bits@.len(),
            m == (n + 7) / 8,
            out@.len() == i,
            forall|j: int| 0 <= j < i ==> out@[j] == eight_bits(bits@, 8 * j),
        decreases m - i,
    {
        let k: usize = 8 * i;
        out.push(
            weight_of(bits, k, 0) | weight_of(bits, k, 1) | weight_of(bits, k, 2) | weight_of(
                bits,
                k,
                3,
            ) | weight_of(bits, k, 4) | weight_of(bits, k, 5) | weight_of(bits, k, 6) | weight_of(
                bits,
                k,
                7,
            ),
        );
        i = i + 1;
    }
    assert(out@ =~= packed(bits@));
    out
}

/// `s` cut or filled with zeros to `n` bytes.
pub open spec fn resized(s: Seq<u8>, n: nat) -> Seq<u8> {
    Seq::new(
        n,
        |i: int|
            if i < s.len() {
                s[i]
            } else {
                0u8
            },
    )
}

/// `s` cut or filled with zeros to `n` bytes.
pub fn resize(s: &[u8], n: usize) -> (r: Vec<u8>)
    ensures
        r@ == resized(s@, n as nat),
{
    let mut out: Vec<u8> = Vec::new();
    while out.len() < n
        invariant
            out@.len() <= n,
            forall|i: int| 0 <= i < out@.len() ==> out@[i] == resized(s@, n as nat)[i],
        decreases n - out@.len(),
    {
        let i: usize = out.len();
        if i < s.len() {
            out.push(s[i]);
        } else {
            out.push(0);
        }
    }
    assert(out@ =~= resized(s@, n as nat));
    out
}

} // verus!
