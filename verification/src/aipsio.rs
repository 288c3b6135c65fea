//! The AipsIO canonical byte format of CASA tables.
//!
//! An AipsIO stream holds nested typed objects. The root object starts with
//! the magic value `0xbebebebe`; every object (root included) is then laid
//! out as `[u32 length][u32 type-length + type bytes][u32 version][payload]`
//! where `length` counts every byte of the object after the magic, including
//! the 4 bytes of the length field itself. Canonical streams are big-endian;
//! the storage managers also write little-endian ones. Strings are a `u32`
//! length followed by raw bytes.
use crate::bytes;
use crate::bytes::{
    length32, push_uint, to_pattern16, to_pattern32, to_pattern64, to_signed16, to_signed32,
    to_signed64, uint_from,
};
use crate::text;
use crate::text::{text_eq, utf8_text};
use vstd::prelude::*;
use vstd::utf8::*;

verus! {

/// Magic value written before the root object.
pub const MAGIC: u32 = 0xbebebebe;

/// Errors from decoding an AipsIO byte stream.
#[derive(Debug, PartialEq, Eq)]
pub enum AipsIoError {
    Truncated { needed: usize, offset: usize, len: usize },
    BadMagic { offset: usize, found: u32 },
    BadString { offset: usize },
    UnexpectedType { offset: usize, expected: String, found: String },
    UnsupportedVersion(u32),
}

/// What an [`AipsIoError`] says.
pub enum AipsIoFault {
    Truncated { needed: int, offset: int, len: int },
    BadMagic { offset: int, found: u32 },
    BadString { offset: int },
    UnexpectedType { offset: int, expected: Seq<char>, found: Seq<char> },
    UnsupportedVersion(u32),
}

impl View for AipsIoError {
    type V = AipsIoFault;

    open spec fn view(&self) -> AipsIoFault {
        match *self {
            AipsIoError::Truncated { needed, offset, len } => AipsIoFault::Truncated {
                needed: needed as int,
                offset: offset as int,
                len: len as int,
            },
            AipsIoError::BadMagic { offset, found } => AipsIoFault::BadMagic {
                offset: offset as int,
                found,
            },
            AipsIoError::BadString { offset } => AipsIoFault::BadString { offset: offset as int },
            AipsIoError::UnexpectedType { offset, expected, found } => AipsIoFault::UnexpectedType {
                offset: offset as int,
                expected: expected@,
                found: found@,
            },
            AipsIoError::UnsupportedVersion(v) => AipsIoFault::UnsupportedVersion(v),
        }
    }
}

/// Header of a typed object in an AipsIO stream.
#[derive(Debug, Clone, PartialEq, Eq)]
pub struct ObjectStart {
    /// Payload length in bytes (type name and version included).
    pub length: u32,
    pub object_type: String,
    pub version: u32,
    /// Byte offset of the payload in the underlying buffer.
    pub payload_offset: usize,
}

/// What an [`ObjectStart`] says.
pub struct ObjectHead {
    pub length: u32,
    pub object_type: Seq<char>,
    pub version: u32,
    pub payload_offset: int,
}

impl View for ObjectStart {
    type V = ObjectHead;

    open spec fn view(&self) -> ObjectHead {
        ObjectHead {
            length: self.length,
            object_type: self.object_type@,
            version: self.version,
            payload_offset: self.payload_offset as int,
        }
    }
}

/// A position in a byte stream: what a [`Reader`] is.
pub struct Cursor {
    pub data: Seq<u8>,
    pub big: bool,
    pub pos: int,
}

/// The outcome of reading at a cursor: a value, or the reason why there is
/// none; either way with the cursor after the attempt.
pub type Step<T, E> = Result<(T, Cursor), (E, Cursor)>;

impl Cursor {
    /// The cursor `n` bytes on.
    pub open spec fn skip(self, n: int) -> Cursor {
        Cursor { pos: self.pos + n, ..self }
    }

    /// The bytes `b` stand at the cursor.
    pub open spec fn holds(self, b: Seq<u8>) -> bool {
        &&& 0 <= self.pos
        &&& self.pos + b.len() <= self.data.len()
        &&& self.data.subrange(self.pos, self.pos + b.len()) == b
    }

    /// The next `n` bytes.
    pub open spec fn take(self, n: int) -> Step<Seq<u8>, AipsIoFault> {
        if n <= self.data.len() - self.pos {
            Ok((self.data.subrange(self.pos, self.pos + n), self.skip(n)))
        } else {
            Err(
                (
                    AipsIoFault::Truncated {
                        needed: n,
                        offset: self.pos,
                        len: self.data.len() as int,
                    },
                    self,
                ),
            )
        }
    }

    /// An unsigned integer of `n` bytes.
    #[verifier::opaque]
    pub open spec fn uint(self, n: int) -> Step<nat, AipsIoFault> {
        match self.take(n) {
            Ok((s, c)) => Ok((bytes::uint_value(self.big, s), c)),
            Err(e) => Err(e),
        }
    }

    pub open spec fn u8(self) -> Step<u8, AipsIoFault> {
        match self.uint(1) {
            Ok((v, c)) => Ok((v as u8, c)),
            Err(e) => Err(e),
        }
    }

    pub open spec fn u16(self) -> Step<u16, AipsIoFault> {
        match self.uint(2) {
            Ok((v, c)) => Ok((v as u16, c)),
            Err(e) => Err(e),
        }
    }

    pub open spec fn i16(self) -> Step<i16, AipsIoFault> {
        match self.u16() {
            Ok((v, c)) => Ok((bytes::signed16(v), c)),
            Err(e) => Err(e),
        }
    }

    pub open spec fn u32(self) -> Step<u32, AipsIoFault> {
        match self.uint(4) {
            Ok((v, c)) => Ok((v as u32, c)),
            Err(e) => Err(e),
        }
    }

    pub open spec fn i32(self) -> Step<i32, AipsIoFault> {
        match self.u32() {
            Ok((v, c)) => Ok((bytes::signed32(v), c)),
            Err(e) => Err(e),
        }
    }

    pub open spec fn u64(self) -> Step<u64, AipsIoFault> {
        match self.uint(8) {
            Ok((v, c)) => Ok((v as u64, c)),
            Err(e) => Err(e),
        }
    }

    pub open spec fn i64(self) -> Step<i64, AipsIoFault> {
        match self.u64() {
            Ok((v, c)) => Ok((bytes::signed64(v), c)),
            Err(e) => Err(e),
        }
    }

    /// A Bool: one byte with the value in bit 0.
    pub open spec fn bool(self) -> Step<bool, AipsIoFault> {
        match self.u8() {
            Ok((v, c)) => Ok((v % 2 == 1, c)),
            Err(e) => Err(e),
        }
    }

    /// A `u32` byte count and that many bytes.
    #[verifier::opaque]
    pub open spec fn opaque(self) -> Step<Seq<u8>, AipsIoFault> {
        match self.u32() {
            Ok((n, c)) => c.take(n as int),
            Err(e) => Err(e),
        }
    }

    /// A `u32` byte count and that many bytes of UTF-8.
    #[verifier::opaque]
    pub open spec fn string(self) -> Step<Seq<char>, AipsIoFault> {
        match self.opaque() {
            Ok((s, c)) => if valid_utf8(s) {
                Ok((decode_utf8(s), c))
            } else {
                Err((AipsIoFault::BadString { offset: self.pos }, c))
            },
            Err(e) => Err(e),
        }
    }

    /// The magic value, where the object is a root object.
    pub open spec fn magic(self, root: bool) -> Step<(), AipsIoFault> {
        if root {
            match self.u32() {
                Ok((found, c)) => if found == MAGIC {
                    Ok(((), c))
                } else {
                    Err((AipsIoFault::BadMagic { offset: self.pos, found }, c))
                },
                Err(e) => Err(e),
            }
        } else {
            Ok(((), self))
        }
    }

    /// An object header.
    #[verifier::opaque]
    pub open spec fn object_start(self, root: bool) -> Step<ObjectHead, AipsIoFault> {
        match self.magic(root) {
            Err(e) => Err(e),
            Ok((_, c)) => match c.u32() {
                Err(e) => Err(e),
                Ok((length, c)) => match c.string() {
                    Err(e) => Err(e),
                    Ok((object_type, c)) => match c.u32() {
                        Err(e) => Err(e),
                        Ok((version, c)) => Ok(
                            (ObjectHead { length, object_type, version, payload_offset: c.pos }, c),
                        ),
                    },
                },
            },
        }
    }

    /// An object header of the given type.
    pub open spec fn object(self, root: bool, expected: Seq<char>) -> Step<
        ObjectHead,
        AipsIoFault,
    > {
        match self.object_start(root) {
            Err(e) => Err(e),
            Ok((head, c)) => if head.object_type == expected {
                Ok((head, c))
            } else {
                Err(
                    (
                        AipsIoFault::UnexpectedType {
                            offset: head.payload_offset,
                            expected,
                            found: head.object_type,
                        },
                        c,
                    ),
                )
            },
        }
    }

    /// One dimension of an IPosition of the given version.
    pub open spec fn dim(self, version: u32) -> Step<i64, AipsIoFault> {
        if version == 1 {
            match self.i32() {
                Ok((v, c)) => Ok((v as i64, c)),
                Err(e) => Err(e),
            }
        } else if version == 2 {
            self.i64()
        } else {
            Err((AipsIoFault::UnsupportedVersion(version), self))
        }
    }

    /// `n` dimensions, appended to `dims`.
    pub open spec fn dims(self, version: u32, n: nat, dims: Seq<i64>) -> Step<
        Seq<i64>,
        AipsIoFault,
    >
        decreases n,
    {
        if n == 0 {
            Ok((dims, self))
        } else {
            match self.dim(version) {
                Err(e) => Err(e),
                Ok((d, c)) => c.dims(version, (n - 1) as nat, dims.push(d)),
            }
        }
    }

    /// A framed IPosition: 32-bit dimensions in version 1, 64-bit in 2.
    pub open spec fn iposition(self) -> Step<Seq<i64>, AipsIoFault> {
        match self.object(false, "IPosition"@) {
            Err(e) => Err(e),
            Ok((head, c)) => match c.u32() {
                Err(e) => Err(e),
                Ok((n, c)) => c.dims(head.version, n as nat, Seq::empty()),
            },
        }
    }
}

/// The cursor `d` is in the same stream as `c`, at or after it.
pub open spec fn onward(c: Cursor, d: Cursor) -> bool {
    &&& d.data == c.data
    &&& d.big == c.big
    &&& c.pos <= d.pos <= d.data.len()
}

/// Reading an integer moves the cursor by its size.
pub broadcast proof fn lemma_uint_onward(c: Cursor, n: int)
    ensures
        (#[trigger] c.uint(n)) matches Ok((v, d)) ==> d == c.skip(n) && d.pos <= d.data.len(),
        c.uint(n) matches Err((f, d)) ==> d == c,
{
    reveal(Cursor::uint);
}

/// Reading a block moves the cursor on.
pub broadcast proof fn lemma_opaque_onward(c: Cursor)
    requires
        0 <= c.pos <= c.data.len(),
    ensures
        (#[trigger] c.opaque()) matches Ok((v, d)) ==> onward(c, d) && c.pos + 4 <= d.pos,
{
    reveal(Cursor::opaque);
    lemma_uint_onward(c, 4);
}

/// Reading a string moves the cursor on.
pub broadcast proof fn lemma_string_onward(c: Cursor)
    requires
        0 <= c.pos <= c.data.len(),
    ensures
        (#[trigger] c.string()) matches Ok((v, d)) ==> onward(c, d) && c.pos + 4 <= d.pos,
{
    reveal(Cursor::string);
    lemma_opaque_onward(c);
}

/// Reading an object header moves the cursor on.
pub broadcast proof fn lemma_object_onward(c: Cursor, root: bool)
    requires
        0 <= c.pos <= c.data.len(),
    ensures
        (#[trigger] c.object_start(root)) matches Ok((v, d)) ==> onward(c, d) && c.pos + 12
            <= d.pos,
{
    reveal(Cursor::object_start);
    broadcast use {lemma_uint_onward, lemma_string_onward};

}

pub broadcast group group_cursor {
    lemma_uint_onward,
    lemma_opaque_onward,
    lemma_string_onward,
    lemma_object_onward,
}

/// The result of a read and the reader after it are what `step` says.
pub open spec fn reads<T: View, E: View>(
    result: Result<T, E>,
    after: Cursor,
    step: Step<T::V, E::V>,
) -> bool {
    match step {
        Ok((v, c)) => result is Ok && result->Ok_0@ == v && after == c,
        Err((f, c)) => result is Err && result->Err_0@ == f && after == c,
    }
}

/// Cursor over an AipsIO byte stream.
pub struct Reader<'a> {
    buf: &'a [u8],
    pos: usize,
    big: bool,
}

impl<'a> View for Reader<'a> {
    type V = Cursor;

    closed spec fn view(&self) -> Cursor {
        Cursor { data: self.buf@, big: self.big, pos: self.pos as int }
    }
}

impl<'a> Reader<'a> {
    #[verifier::type_invariant]
    spec fn inside(&self) -> bool {
        self.pos <= self.buf@.len()
    }

    /// A reader at the start of a canonical (big-endian) stream.
    pub fn new(buf: &'a [u8]) -> (r: Self)
        ensures
            r@ == (Cursor { data: buf@, big: true, pos: 0 }),
    {
        Reader { buf, pos: 0, big: true }
    }

    /// A reader at the start of a little-endian stream.
    pub fn new_le(buf: &'a [u8]) -> (r: Self)
        ensures
            r@ == (Cursor { data: buf@, big: false, pos: 0 }),
    {
        Reader { buf, pos: 0, big: false }
    }

    pub fn position(&self) -> (r: usize)
        ensures
            r == self@.pos,
            r <= self@.data.len(),
    {
        proof {
            use_type_invariant(self);
        }
        self.pos
    }

    fn take(&mut self, n: usize) -> (r: Result<&'a [u8], AipsIoError>)
        ensures
            reads(r, final(self)@, old(self)@.take(n as int)),
    {
        proof {
            use_type_invariant(&*self);
        }
        if self.buf.len() - self.pos < n {
            return Err(
                AipsIoError::Truncated { needed: n, offset: self.pos, len: self.buf.len() },
            );
        }
        let out = vstd::slice::slice_subrange(self.buf, self.pos, self.pos + n);
        self.pos = self.pos + n;
        Ok(out)
    }

    fn read_uint(&mut self, n: usize) -> (r: Result<u64, AipsIoError>)
        requires
            n <= 8,
        ensures
            match old(self)@.uint(n as int) {
                Ok((v, c)) => r == Ok::<u64, AipsIoError>(v as u64) && final(self)@ == c && v
                    < bytes::byte_span(n as nat),
                Err((f, c)) => r is Err && r->Err_0@ == f && final(self)@ == c,
            },
    {
        proof {
            reveal(Cursor::uint);
        }
        let big = self.big;
        let b = self.take(n)?;
        Ok(uint_from(big, b))
    }

    pub fn read_u32(&mut self) -> (r: Result<u32, AipsIoError>)
        ensures
            reads(r, final(self)@, old(self)@.u32()),
    {
        let v = self.read_uint(4)?;
        proof {
            bytes::lemma_spans();
        }
        Ok(v as u32)
    }

    pub fn read_i32(&mut self) -> (r: Result<i32, AipsIoError>)
        ensures
            reads(r, final(self)@, old(self)@.i32()),
    {
        let v = self.read_u32()?;
        Ok(to_signed32(v))
    }

    pub fn read_u64(&mut self) -> (r: Result<u64, AipsIoError>)
        ensures
            reads(r, final(self)@, old(self)@.u64()),
    {
        self.read_uint(8)
    }

    pub fn read_i64(&mut self) -> (r: Result<i64, AipsIoError>)
        ensures
            reads(r, final(self)@, old(self)@.i64()),
    {
        let v = self.read_u64()?;
        Ok(to_signed64(v))
    }

    pub fn read_u8(&mut self) -> (r: Result<u8, AipsIoError>)
        ensures
            reads(r, final(self)@, old(self)@.u8()),
    {
        let v = self.read_uint(1)?;
        proof {
            bytes::lemma_spans();
        }
        Ok(v as u8)
    }

    pub fn read_i16(&mut self) -> (r: Result<i16, AipsIoError>)
        ensures
            reads(r, final(self)@, old(self)@.i16()),
    {
        let v = self.read_u16()?;
        Ok(to_signed16(v))
    }

    pub fn read_u16(&mut self) -> (r: Result<u16, AipsIoError>)
        ensures
            reads(r, final(self)@, old(self)@.u16()),
    {
        let v = self.read_uint(2)?;
        proof {
            bytes::lemma_spans();
        }
        Ok(v as u16)
    }

    /// The bit pattern of a single-precision number.
    pub fn read_f32(&mut self) -> (r: Result<u32, AipsIoError>)
        ensures
            reads(r, final(self)@, old(self)@.u32()),
    {
        self.read_u32()
    }

    /// The bit pattern of a double-precision number.
    pub fn read_f64(&mut self) -> (r: Result<u64, AipsIoError>)
        ensures
            reads(r, final(self)@, old(self)@.u64()),
    {
        self.read_u64()
    }

    /// AipsIO Bool: one bit-packed byte; a scalar occupies a full byte with
    /// the value in bit 0.
    pub fn read_bool(&mut self) -> (r: Result<bool, AipsIoError>)
        ensures
            reads(r, final(self)@, old(self)@.bool()),
    {
        let v = self.read_u8()?;
        Ok(v % 2 == 1)
    }

    /// An opaque data block: `u32` byte length + raw bytes, e.g. the
    /// per-data-manager blobs in `table.dat`. The returned slice is a
    /// self-contained AipsIO stream.
    pub fn read_opaque(&mut self) -> (r: Result<&'a [u8], AipsIoError>)
        ensures
            reads(r, final(self)@, old(self)@.opaque()),
    {
        proof {
            reveal(Cursor::opaque);
        }
        let n = self.read_u32()?;
        self.take(n as usize)
    }

    /// AipsIO string: `u32` length + raw bytes (no NUL terminator).
    pub fn read_string(&mut self) -> (r: Result<String, AipsIoError>)
        ensures
            reads(r, final(self)@, old(self)@.string()),
    {
        proof {
            reveal(Cursor::string);
        }
        let offset = self.position();
        let bytes = self.read_opaque()?;
        match utf8_text(vstd::slice::slice_to_vec(bytes)) {
            Some(s) => Ok(s),
            None => Err(AipsIoError::BadString { offset }),
        }
    }

    /// Read an object header. `root` objects are preceded by the magic value.
    pub fn read_object_start(&mut self, root: bool) -> (r: Result<ObjectStart, AipsIoError>)
        ensures
            reads(r, final(self)@, old(self)@.object_start(root)),
    {
        proof {
            reveal(Cursor::object_start);
        }
        if root {
            let offset = self.position();
            let found = self.read_u32()?;
            if found != MAGIC {
                return Err(AipsIoError::BadMagic { offset, found });
            }
        }
        let length = self.read_u32()?;
        let object_type = self.read_string()?;
        let version = self.read_u32()?;
        Ok(ObjectStart { length, object_type, version, payload_offset: self.position() })
    }

    /// Read a framed object of an expected type, returning its version and
    /// header. `root` objects are preceded by the magic value.
    pub fn read_object(&mut self, root: bool, expected: &str) -> (r: Result<
        (u32, ObjectStart),
        AipsIoError,
    >)
        ensures
            match old(self)@.object(root, expected@) {
                Ok((head, c)) => r is Ok && r->Ok_0.0 == head.version && r->Ok_0.1@ == head && final(self)@ == c,
                Err((f, c)) => r is Err && r->Err_0@ == f && final(self)@ == c,
            },
    {
        let obj = self.read_object_start(root)?;
        if !text_eq(obj.object_type.as_str(), expected) {
            return Err(
                AipsIoError::UnexpectedType {
                    offset: obj.payload_offset,
                    expected: expected.to_owned(),
                    found: obj.object_type,
                },
            );
        }
        Ok((obj.version, obj))
    }

    fn read_dim(&mut self, version: u32) -> (r: Result<i64, AipsIoError>)
        ensures
            reads(r, final(self)@, old(self)@.dim(version)),
    {
        if version == 1 {
            let v = self.read_i32()?;
            Ok(v as i64)
        } else if version == 2 {
            self.read_i64()
        } else {
            Err(AipsIoError::UnsupportedVersion(version))
        }
    }

    /// IPosition: framed `"IPosition"` object; v1 = `u32 nelem` + i32 dims,
    /// v2 (huge dims) = i64 dims.
    pub fn read_iposition(&mut self) -> (r: Result<Vec<i64>, AipsIoError>)
        ensures
            reads(r, final(self)@, old(self)@.iposition()),
    {
        let ghost start = self@;
        let (version, obj) = self.read_object(false, "IPosition")?;
        let n: u32 = self.read_u32()?;
        let mut dims: Vec<i64> = Vec::new();
        let mut i: u32 = 0;
        assert(start.iposition() == self@.dims(version, n as nat, dims@));
        while i < n
            invariant
                i <= n,
                start == old(self)@,
                start.iposition() == self@.dims(version, (n - i) as nat, dims@),
            decreases n - i,
        {
            let d = self.read_dim(version)?;
            dims.push(d);
            i = i + 1;
        }
        Ok(dims)
    }
}

/// A string: its byte count, then its bytes.
pub open spec fn string_bytes(big: bool, s: Seq<char>) -> Seq<u8> {
    opaque_bytes(big, text::text_bytes(s))
}

/// An opaque block: its byte count, then its bytes.
pub open spec fn opaque_bytes(big: bool, b: Seq<u8>) -> Seq<u8> {
    u32_bytes(big, bytes::low32(b.len() as int)) + b
}

pub open spec fn u8_bytes(v: u8) -> Seq<u8> {
    seq![v]
}

pub open spec fn bool_bytes(v: bool) -> Seq<u8> {
    seq![if v { 1u8 } else { 0u8 }]
}

pub open spec fn u16_bytes(big: bool, v: u16) -> Seq<u8> {
    bytes::uint_bytes(big, v as nat, 2)
}

pub open spec fn i16_bytes(big: bool, v: i16) -> Seq<u8> {
    u16_bytes(big, bytes::pattern16(v))
}

pub open spec fn u32_bytes(big: bool, v: u32) -> Seq<u8> {
    bytes::uint_bytes(big, v as nat, 4)
}

pub open spec fn i32_bytes(big: bool, v: i32) -> Seq<u8> {
    u32_bytes(big, bytes::pattern32(v))
}

pub open spec fn u64_bytes(big: bool, v: u64) -> Seq<u8> {
    bytes::uint_bytes(big, v as nat, 8)
}

pub open spec fn i64_bytes(big: bool, v: i64) -> Seq<u8> {
    u64_bytes(big, bytes::pattern64(v))
}

/// The magic value, where the object is a root object.
pub open spec fn magic_bytes(big: bool, root: bool) -> Seq<u8> {
    if root {
        u32_bytes(big, MAGIC)
    } else {
        Seq::empty()
    }
}

/// The header of an object with a payload of `payload` bytes.
pub open spec fn head_bytes(
    big: bool,
    root: bool,
    object_type: Seq<char>,
    version: u32,
    payload: int,
) -> Seq<u8> {
    magic_bytes(big, root) + u32_bytes(
        big,
        bytes::low32(12 + text::text_bytes(object_type).len() + payload),
    ) + string_bytes(big, object_type) + u32_bytes(big, version)
}

/// A framed object.
pub open spec fn object_bytes(
    big: bool,
    root: bool,
    object_type: Seq<char>,
    version: u32,
    payload: Seq<u8>,
) -> Seq<u8> {
    head_bytes(big, root, object_type, version, payload.len() as int) + payload
}

/// An object that has been started and not ended.
pub struct OpenObject {
    pub before: Seq<u8>,
    pub root: bool,
    pub object_type: Seq<char>,
    pub version: u32,
}

/// What a [`Writer`] holds: the enclosing open objects, outermost first,
/// each with the bytes before it, and the payload written so far to the
/// innermost one.
pub struct Sheet {
    pub big: bool,
    pub open: Seq<OpenObject>,
    pub body: Seq<u8>,
}

impl Sheet {
    /// The sheet with `b` appended.
    pub open spec fn put(self, b: Seq<u8>) -> Sheet {
        Sheet { body: self.body + b, ..self }
    }

    /// The sheet inside a new object.
    pub open spec fn start(self, root: bool, object_type: Seq<char>, version: u32) -> Sheet {
        Sheet {
            big: self.big,
            open: self.open.push(OpenObject { before: self.body, root, object_type, version }),
            body: Seq::empty(),
        }
    }

    /// The sheet with its innermost object ended.
    pub open spec fn end(self) -> Sheet {
        let o = self.open.last();
        Sheet {
            big: self.big,
            open: self.open.drop_last(),
            body: o.before + object_bytes(self.big, o.root, o.object_type, o.version, self.body),
        }
    }
}

/// Starting an object, writing its payload and ending it appends the object.
pub proof fn lemma_sheet_object(
    s: Sheet,
    root: bool,
    object_type: Seq<char>,
    version: u32,
    payload: Seq<u8>,
)
    ensures
        s.start(root, object_type, version).put(payload).end() == s.put(
            object_bytes(s.big, root, object_type, version, payload),
        ),
{
    let t = s.start(root, object_type, version).put(payload);
    assert(t.body =~= payload);
    assert(t.end().open =~= s.open);
}

/// Writing twice is writing the concatenation.
pub proof fn lemma_sheet_put(s: Sheet, a: Seq<u8>, b: Seq<u8>)
    ensures
        s.put(a).put(b) == s.put(a + b),
{
    assert(s.put(a).put(b).body =~= s.put(a + b).body);
}

pub proof fn lemma_sheet_put3(s: Sheet, a: Seq<u8>, b: Seq<u8>, c: Seq<u8>)
    ensures
        s.put(a).put(b).put(c) == s.put(a + b + c),
{
    lemma_sheet_put(s, a, b);
    lemma_sheet_put(s, a + b, c);
}

pub proof fn lemma_sheet_put4(s: Sheet, a: Seq<u8>, b: Seq<u8>, c: Seq<u8>, d: Seq<u8>)
    ensures
        s.put(a).put(b).put(c).put(d) == s.put(a + b + c + d),
{
    lemma_sheet_put3(s, a, b, c);
    lemma_sheet_put(s, a + b + c, d);
}

pub proof fn lemma_sheet_put5(
    s: Sheet,
    a: Seq<u8>,
    b: Seq<u8>,
    c: Seq<u8>,
    d: Seq<u8>,
    e: Seq<u8>,
)
    ensures
        s.put(a).put(b).put(c).put(d).put(e) == s.put(a + b + c + d + e),
{
    lemma_sheet_put4(s, a, b, c, d);
    lemma_sheet_put(s, a + b + c + d, e);
}

pub proof fn lemma_sheet_put_nothing(s: Sheet)
    ensures
        s.put(Seq::empty()) == s,
{
    assert(s.put(Seq::empty()).body =~= s.body);
}

struct Frame {
    before: Vec<u8>,
    root: bool,
    object_type: String,
    version: u32,
}

/// Builder of an AipsIO byte stream.
pub struct Writer {
    big: bool,
    stack: Vec<Frame>,
    body: Vec<u8>,
}

impl Frame {
    spec fn model(self) -> OpenObject {
        OpenObject {
            before: self.before@,
            root: self.root,
            object_type: self.object_type@,
            version: self.version,
        }
    }
}

impl View for Writer {
    type V = Sheet;

    closed spec fn view(&self) -> Sheet {
        Sheet {
            big: self.big,
            open: self.stack@.map_values(|f: Frame| f.model()),
            body: self.body@,
        }
    }
}

impl Writer {
    /// An empty canonical (big-endian) stream.
    pub fn new() -> (w: Writer)
        ensures
            w@ == (Sheet { big: true, open: Seq::empty(), body: Seq::empty() }),
    {
        let w = Writer { big: true, stack: Vec::new(), body: Vec::new() };
        assert(w@.open =~= Seq::empty());
        w
    }

    /// An empty little-endian stream.
    pub fn new_le() -> (w: Writer)
        ensures
            w@ == (Sheet { big: false, open: Seq::empty(), body: Seq::empty() }),
    {
        let w = Writer { big: false, stack: Vec::new(), body: Vec::new() };
        assert(w@.open =~= Seq::empty());
        w
    }

    /// Whether the stream is big-endian.
    pub fn is_big_endian(&self) -> (r: bool)
        ensures
            r == self@.big,
    {
        self.big
    }

    fn put_uint(&mut self, v: u64, n: usize)
        ensures
            final(self)@ == old(self)@.put(bytes::uint_bytes(old(self)@.big, v as nat, n as nat)),
    {
        push_uint(&mut self.body, self.big, v, n);
    }

    /// Raw bytes, without a length.
    pub fn put_raw(&mut self, b: &[u8])
        ensures
            final(self)@ == old(self)@.put(b@),
    {
        self.body.extend_from_slice(b);
        assert(self.body@ =~= old(self).body@ + b@);
    }

    pub fn put_u8(&mut self, v: u8)
        ensures
            final(self)@ == old(self)@.put(u8_bytes(v)),
    {
        self.body.push(v);
        assert(self.body@ =~= old(self).body@ + u8_bytes(v));
    }

    pub fn put_bool(&mut self, v: bool)
        ensures
            final(self)@ == old(self)@.put(bool_bytes(v)),
    {
        if v {
            self.put_u8(1);
        } else {
            self.put_u8(0);
        }
    }

    pub fn put_u16(&mut self, v: u16)
        ensures
            final(self)@ == old(self)@.put(u16_bytes(old(self)@.big, v)),
    {
        self.put_uint(v as u64, 2);
    }

    pub fn put_i16(&mut self, v: i16)
        ensures
            final(self)@ == old(self)@.put(i16_bytes(old(self)@.big, v)),
    {
        self.put_u16(to_pattern16(v));
    }

    pub fn put_u32(&mut self, v: u32)
        ensures
            final(self)@ == old(self)@.put(u32_bytes(old(self)@.big, v)),
    {
        self.put_uint(v as u64, 4);
    }

    pub fn put_i32(&mut self, v: i32)
        ensures
            final(self)@ == old(self)@.put(i32_bytes(old(self)@.big, v)),
    {
        self.put_u32(to_pattern32(v));
    }

    pub fn put_u64(&mut self, v: u64)
        ensures
            final(self)@ == old(self)@.put(u64_bytes(old(self)@.big, v)),
    {
        self.put_uint(v, 8);
    }

    pub fn put_i64(&mut self, v: i64)
        ensures
            final(self)@ == old(self)@.put(i64_bytes(old(self)@.big, v)),
    {
        self.put_u64(to_pattern64(v));
    }

    /// The bit pattern of a single-precision number.
    pub fn put_f32(&mut self, v: u32)
        ensures
            final(self)@ == old(self)@.put(u32_bytes(old(self)@.big, v)),
    {
        self.put_u32(v);
    }

    /// The bit pattern of a double-precision number.
    pub fn put_f64(&mut self, v: u64)
        ensures
            final(self)@ == old(self)@.put(u64_bytes(old(self)@.big, v)),
    {
        self.put_u64(v);
    }

    /// An opaque block: `u32` byte length + raw bytes.
    pub fn put_opaque(&mut self, b: &[u8])
        ensures
            final(self)@ == old(self)@.put(opaque_bytes(old(self)@.big, b@)),
    {
        self.put_u32(length32(b.len()));
        self.put_raw(b);
        assert(self@.body =~= old(self)@.put(opaque_bytes(old(self)@.big, b@)).body);
    }

    /// A string: `u32` byte length + UTF-8 bytes.
    pub fn put_string(&mut self, s: &str)
        ensures
            final(self)@ == old(self)@.put(string_bytes(old(self)@.big, s@)),
    {
        self.put_opaque(s.as_bytes());
    }

    fn start(&mut self, root: bool, object_type: &str, version: u32)
        ensures
            final(self)@ == old(self)@.start(root, object_type@, version),
    {
        let mut before: Vec<u8> = Vec::new();
        before.append(&mut self.body);
        assert(before@ =~= old(self)@.body);
        self.stack.push(Frame { before, root, object_type: object_type.to_owned(), version });
        proof {
            assert(self@.open =~= old(self)@.start(root, object_type@, version).open);
        }
    }

    /// Start a nested object.
    pub fn put_object_start(&mut self, object_type: &str, version: u32)
        ensures
            final(self)@ == old(self)@.start(false, object_type@, version),
    {
        self.start(false, object_type, version);
    }

    /// Start a root object, preceded by the magic value.
    pub fn put_root_object_start(&mut self, object_type: &str, version: u32)
        ensures
            final(self)@ == old(self)@.start(true, object_type@, version),
    {
        self.start(true, object_type, version);
    }

    /// End the innermost object: its length is now known.
    #[verifier::spinoff_prover]
    #[verifier::rlimit(60)]
    pub fn put_object_end(&mut self)
        requires
            old(self)@.open.len() > 0,
        ensures
            final(self)@ == old(self)@.end(),
    {
        let ghost start = self@;
        match self.stack.pop() {
            None => {
                assert(false);
            },
            Some(frame) => {
                let mut payload: Vec<u8> = Vec::new();
                payload.append(&mut self.body);
                assert(payload@ =~= start.body);
                let Frame { before, root, object_type, version } = frame;
                self.body = before;
                let ghost s = self@;
                assert(s.open =~= start.end().open);
                let t: u64 = object_type.as_str().as_bytes().len() as u64 % 0x1_0000_0000;
                let p: u64 = payload.len() as u64 % 0x1_0000_0000;
                let length: u32 = ((12 + t + p) % 0x1_0000_0000) as u32;
                let ghost o = start.open.last();
                assert(o.object_type == object_type@ && o.root == root && o.version == version
                    && o.before == s.body);
                proof {
                    let n = text::text_bytes(object_type@).len() as int;
                    assert(length == bytes::low32(12 + n + start.body.len()));
                }
                if root {
                    self.put_u32(MAGIC);
                } else {
                    proof {
                        lemma_sheet_put_nothing(s);
                    }
                }
                self.put_u32(length);
                self.put_string(object_type.as_str());
                self.put_u32(version);
                self.put_raw(payload.as_slice());
                proof {
                    lemma_sheet_put5(
                        s,
                        magic_bytes(s.big, root),
                        u32_bytes(s.big, length),
                        string_bytes(s.big, object_type@),
                        u32_bytes(s.big, version),
                        start.body,
                    );
                }
            },
        }
    }

    /// The finished stream.
    pub fn into_bytes(self) -> (r: Vec<u8>)
        requires
            self@.open.len() == 0,
        ensures
            r@ == self@.body,
    {
        self.body
    }
}

/// Where a concatenation stands, its first part stands, and after it the
/// second.
pub proof fn lemma_holds_concat(c: Cursor, a: Seq<u8>, b: Seq<u8>)
    requires
        c.holds(a + b),
    ensures
        c.holds(a),
        c.skip(a.len() as int).holds(b),
{
    let ab = c.data.subrange(c.pos, c.pos + (a + b).len());
    assert(ab.subrange(0, a.len() as int) =~= a);
    assert(c.data.subrange(c.pos, c.pos + a.len()) =~= a);
    let d = c.skip(a.len() as int);
    assert(ab.subrange(a.len() as int, ab.len() as int) =~= b);
    assert(d.data.subrange(d.pos, d.pos + b.len()) =~= b);
}

pub proof fn lemma_take(c: Cursor, b: Seq<u8>)
    requires
        c.holds(b),
    ensures
        c.take(b.len() as int) == Ok::<(Seq<u8>, Cursor), (AipsIoFault, Cursor)>(
            (b, c.skip(b.len() as int)),
        ),
{
}

pub proof fn lemma_uint(c: Cursor, v: nat, n: nat)
    requires
        c.holds(bytes::uint_bytes(c.big, v, n)),
        v < bytes::byte_span(n),
    ensures
        c.uint(n as int) == Ok::<(nat, Cursor), (AipsIoFault, Cursor)>((v, c.skip(n as int))),
{
    reveal(Cursor::uint);
    bytes::lemma_uint_bytes_len(c.big, v, n);
    lemma_take(c, bytes::uint_bytes(c.big, v, n));
    bytes::law_uint_round_trip(c.big, v, n);
}

/// A written byte is read back.
pub proof fn law_u8_round_trip(c: Cursor, v: u8)
    requires
        c.holds(u8_bytes(v)),
    ensures
        c.u8() == Ok::<(u8, Cursor), (AipsIoFault, Cursor)>((v, c.skip(1))),
{
    bytes::lemma_spans();
    reveal_with_fuel(bytes::le_digits, 2);
    assert(bytes::uint_bytes(c.big, v as nat, 1) =~= u8_bytes(v));
    lemma_uint(c, v as nat, 1);
}

/// A written Bool is read back.
pub proof fn law_bool_round_trip(c: Cursor, v: bool)
    requires
        c.holds(bool_bytes(v)),
    ensures
        c.bool() == Ok::<(bool, Cursor), (AipsIoFault, Cursor)>((v, c.skip(1))),
{
    law_u8_round_trip(c, if v { 1u8 } else { 0u8 });
}

/// A written 16-bit integer is read back.
pub proof fn law_i16_round_trip(c: Cursor, v: i16)
    requires
        c.holds(i16_bytes(c.big, v)),
    ensures
        c.i16() == Ok::<(i16, Cursor), (AipsIoFault, Cursor)>((v, c.skip(2))),
{
    bytes::lemma_spans();
    lemma_uint(c, bytes::pattern16(v) as nat, 2);
}

/// A written unsigned 16-bit integer is read back.
pub proof fn law_u16_round_trip(c: Cursor, v: u16)
    requires
        c.holds(u16_bytes(c.big, v)),
    ensures
        c.u16() == Ok::<(u16, Cursor), (AipsIoFault, Cursor)>((v, c.skip(2))),
{
    bytes::lemma_spans();
    lemma_uint(c, v as nat, 2);
}

/// A written unsigned 32-bit integer is read back.
pub proof fn law_u32_round_trip(c: Cursor, v: u32)
    requires
        c.holds(u32_bytes(c.big, v)),
    ensures
        c.u32() == Ok::<(u32, Cursor), (AipsIoFault, Cursor)>((v, c.skip(4))),
{
    bytes::lemma_spans();
    lemma_uint(c, v as nat, 4);
}

/// A written 32-bit integer is read back.
pub proof fn law_i32_round_trip(c: Cursor, v: i32)
    requires
        c.holds(i32_bytes(c.big, v)),
    ensures
        c.i32() == Ok::<(i32, Cursor), (AipsIoFault, Cursor)>((v, c.skip(4))),
{
    law_u32_round_trip(c, bytes::pattern32(v));
}

/// A written unsigned 64-bit integer is read back.
pub proof fn law_u64_round_trip(c: Cursor, v: u64)
    requires
        c.holds(u64_bytes(c.big, v)),
    ensures
        c.u64() == Ok::<(u64, Cursor), (AipsIoFault, Cursor)>((v, c.skip(8))),
{
    bytes::lemma_spans();
    lemma_uint(c, v as nat, 8);
}

/// A written 64-bit integer is read back.
pub proof fn law_i64_round_trip(c: Cursor, v: i64)
    requires
        c.holds(i64_bytes(c.big, v)),
    ensures
        c.i64() == Ok::<(i64, Cursor), (AipsIoFault, Cursor)>((v, c.skip(8))),
{
    law_u64_round_trip(c, bytes::pattern64(v));
}

/// A written opaque block is read back, provided that its length fits the
/// 32-bit length field.
pub proof fn law_opaque_round_trip(c: Cursor, b: Seq<u8>)
    requires
        b.len() <= u32::MAX,
        c.holds(opaque_bytes(c.big, b)),
    ensures
        opaque_bytes(c.big, b).len() == 4 + b.len(),
        c.opaque() == Ok::<(Seq<u8>, Cursor), (AipsIoFault, Cursor)>((b, c.skip(4 + b.len() as int))),
{
    reveal(Cursor::opaque);
    let n = bytes::low32(b.len() as int);
    bytes::lemma_uint_bytes_len(c.big, n as nat, 4);
    lemma_holds_concat(c, u32_bytes(c.big, n), b);
    law_u32_round_trip(c, n);
    lemma_take(c.skip(4), b);
}

/// A written string is read back, provided that its length fits the 32-bit
/// length field.
pub proof fn law_string_round_trip(c: Cursor, s: Seq<char>)
    requires
        text::text_bytes(s).len() <= u32::MAX,
        c.holds(string_bytes(c.big, s)),
    ensures
        string_bytes(c.big, s).len() == 4 + text::text_bytes(s).len(),
        c.string() == Ok::<(Seq<char>, Cursor), (AipsIoFault, Cursor)>(
            (s, c.skip(4 + text::text_bytes(s).len() as int)),
        ),
{
    reveal(Cursor::string);
    law_opaque_round_trip(c, text::text_bytes(s));
    text::law_text_round_trip(s);
}

/// The header of a written object is read back, and the cursor then stands
/// at the payload.
pub proof fn law_object_round_trip(
    c: Cursor,
    root: bool,
    object_type: Seq<char>,
    version: u32,
    payload: Seq<u8>,
)
    requires
        text::text_bytes(object_type).len() <= u32::MAX,
        c.holds(object_bytes(c.big, root, object_type, version, payload)),
    ensures
        c.object_start(root) matches Ok((head, d)) && {
            &&& head.object_type == object_type
            &&& head.version == version
            &&& d == c.skip(
                head_bytes(c.big, root, object_type, version, payload.len() as int).len() as int,
            )
            &&& d.holds(payload)
        },
        c.object(root, object_type) == c.object_start(root),
{
    reveal(Cursor::object_start);
    let big = c.big;
    let length = bytes::low32(12 + text::text_bytes(object_type).len() + payload.len() as int);
    let m = magic_bytes(big, root);
    let l = u32_bytes(big, length);
    let t = string_bytes(big, object_type);
    let v = u32_bytes(big, version);
    bytes::lemma_uint_bytes_len(big, length as nat, 4);
    bytes::lemma_uint_bytes_len(big, version as nat, 4);
    bytes::lemma_uint_bytes_len(big, MAGIC as nat, 4);
    lemma_holds_concat(c, m + l + t + v, payload);
    lemma_holds_concat(c, m + l + t, v);
    lemma_holds_concat(c, m + l, t);
    lemma_holds_concat(c, m, l);
    if root {
        law_u32_round_trip(c, MAGIC);
    }
    let c1 = c.skip(m.len() as int);
    law_u32_round_trip(c1, length);
    let c2 = c1.skip(4);
    assert(c.skip((m + l).len() as int) == c2);
    law_string_round_trip(c2, object_type);
    let c3 = c2.skip(t.len() as int);
    assert(c.skip((m + l + t).len() as int) == c3);
    law_u32_round_trip(c3, version);
    assert(c.skip((m + l + t + v).len() as int) == c3.skip(4));
}

} // verus!
