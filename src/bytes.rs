//! Big-endian primitives over a byte reader and a byte vector.
use vstd::prelude::*;

verus! {

/// The ways decoding or encoding can fail.
#[derive(Debug, Clone, Copy, PartialEq, Eq)]
pub enum Error {
    /// A structural violation of the format, with what was being handled.
    Invalid(&'static str),
    /// The input ended while a value was being decoded.
    Truncated,
    /// A deferred bootstrap-method reference was never resolved.
    Unresolved,
}

/// The big-endian value of two bytes.
pub open spec fn be16(a: u8, b: u8) -> int {
    a as int * 256 + b as int
}

/// The big-endian value of four bytes.
pub open spec fn be32(a: u8, b: u8, c: u8, d: u8) -> int {
    ((a as int * 256 + b as int) * 256 + c as int) * 256 + d as int
}

/// The two's-complement reading of a 32-bit pattern.
pub open spec fn signed32(v: int) -> int {
    if v < 0x8000_0000 {
        v
    } else {
        v - 0x1_0000_0000
    }
}

/// The two's-complement reading of a 16-bit pattern.
pub open spec fn signed16(v: int) -> int {
    if v < 0x8000 {
        v
    } else {
        v - 0x1_0000
    }
}

/// Reinterprets a 32-bit pattern as a signed integer.
pub fn to_i32(v: u32) -> (r: i32)
    ensures
        r as int == signed32(v as int),
{
    if v < 0x8000_0000 {
        v as i32
    } else {
        ((v - 0x8000_0000) as i32) - 0x7fff_ffff - 1
    }
}

/// The bit pattern of a signed 32-bit integer.
pub fn from_i32(v: i32) -> (r: u32)
    ensures
        signed32(r as int) == v as int,
{
    if v >= 0 {
        v as u32
    } else {
        ((v + 0x7fff_ffff + 1) as u32) + 0x8000_0000
    }
}

/// The two bytes of a signed 16-bit value.
pub open spec fn i16_bytes(v: int) -> Seq<u8> {
    u16_bytes((if v < 0 {
        v + 0x1_0000
    } else {
        v
    }) as u16)
}

/// The byte of a signed 8-bit value.
pub open spec fn i8_byte(v: int) -> u8 {
    (if v < 0 {
        v + 0x100
    } else {
        v
    }) as u8
}

/// The two big-endian bytes of `v`.
pub open spec fn u16_bytes(v: u16) -> Seq<u8> {
    seq![(v / 256) as u8, (v % 256) as u8]
}

/// The four big-endian bytes of `v`.
pub open spec fn u32_bytes(v: u32) -> Seq<u8> {
    seq![(v / 16777216) as u8, ((v / 65536) % 256) as u8, ((v / 256) % 256) as u8, (v % 256) as u8]
}


pub proof fn lemma_be16_bytes(a: u8, b: u8)
    ensures
        0 <= be16(a, b) <= 0xFFFF,
        u16_bytes(be16(a, b) as u16) == seq![a, b],
{
    assert(u16_bytes(be16(a, b) as u16) =~= seq![a, b]);
}

pub proof fn lemma_be32_bytes(a: u8, b: u8, c: u8, d: u8)
    ensures
        0 <= be32(a, b, c, d) <= 0xFFFF_FFFF,
        u32_bytes(be32(a, b, c, d) as u32) == seq![a, b, c, d],
{
    assert(u32_bytes(be32(a, b, c, d) as u32) =~= seq![a, b, c, d]);
}

/// Appends the big-endian bytes of `v`.
pub fn push_u16(out: &mut Vec<u8>, v: u16)
    ensures
        final(out)@ == old(out)@ + u16_bytes(v),
{
    out.push((v / 256) as u8);
    out.push((v % 256) as u8);
    assert(final(out)@ =~= old(out)@ + u16_bytes(v));
}

/// Appends the big-endian bytes of `v`.
pub fn push_u32(out: &mut Vec<u8>, v: u32)
    ensures
        final(out)@ == old(out)@ + u32_bytes(v),
{
    out.push((v / 16777216) as u8);
    out.push(((v / 65536) % 256) as u8);
    out.push(((v / 256) % 256) as u8);
    out.push((v % 256) as u8);
    assert(final(out)@ =~= old(out)@ + u32_bytes(v));
}

/// A cursor over a byte buffer.
pub struct ByteReader {
    pub bytes: Vec<u8>,
    pub pos: usize,
}

impl ByteReader {
    pub open spec fn wf(&self) -> bool {
        self.pos <= self.bytes@.len()
    }

    /// The bytes not yet read.
    pub open spec fn rest(&self) -> Seq<u8> {
        self.bytes@.subrange(self.pos as int, self.bytes@.len() as int)
    }

    pub fn new(bytes: Vec<u8>) -> (r: ByteReader)
        ensures
            r.wf(),
            r.bytes@ == bytes@,
            r.pos == 0,
    {
        ByteReader { bytes, pos: 0 }
    }

    pub fn read_u8(&mut self) -> (r: Result<u8, Error>)
        requires
            old(self).wf(),
        ensures
            final(self).wf(),
            final(self).bytes@ == old(self).bytes@,
            old(self).pos < old(self).bytes@.len() <==> r is Ok,
            r is Ok ==> r->Ok_0 == old(self).bytes@[old(self).pos as int]
                && final(self).pos == old(self).pos + 1,
            r is Err ==> r->Err_0 == Error::Truncated && final(self).pos == old(self).pos,
    {
        if self.pos < self.bytes.len() {
            let b = self.bytes[self.pos];
            self.pos = self.pos + 1;
            Ok(b)
        } else {
            Err(Error::Truncated)
        }
    }

    pub fn read_u16(&mut self) -> (r: Result<u16, Error>)
        requires
            old(self).wf(),
        ensures
            final(self).wf(),
            final(self).bytes@ == old(self).bytes@,
            old(self).pos + 2 <= old(self).bytes@.len() <==> r is Ok,
            r is Ok ==> r->Ok_0 == be16(old(self).bytes@[old(self).pos as int], old(self).bytes@[old(self).pos + 1])
                && final(self).pos == old(self).pos + 2,
            r is Err ==> r->Err_0 == Error::Truncated && final(self).pos == old(self).pos,
    {
        if self.bytes.len() - self.pos >= 2 {
            let a = self.bytes[self.pos];
            let b = self.bytes[self.pos + 1];
            self.pos = self.pos + 2;
            Ok(a as u16 * 256 + b as u16)
        } else {
            Err(Error::Truncated)
        }
    }

    pub fn read_u32(&mut self) -> (r: Result<u32, Error>)
        requires
            old(self).wf(),
        ensures
            final(self).wf(),
            final(self).bytes@ == old(self).bytes@,
            old(self).pos + 4 <= old(self).bytes@.len() <==> r is Ok,
            r is Ok ==> r->Ok_0 == be32(
                old(self).bytes@[old(self).pos as int],
                old(self).bytes@[old(self).pos + 1],
                old(self).bytes@[old(self).pos + 2],
                old(self).bytes@[old(self).pos + 3],
            ) && final(self).pos == old(self).pos + 4,
            r is Err ==> r->Err_0 == Error::Truncated && final(self).pos == old(self).pos,
    {
        if self.bytes.len() - self.pos >= 4 {
            let a = self.bytes[self.pos];
            let b = self.bytes[self.pos + 1];
            let c = self.bytes[self.pos + 2];
            let d = self.bytes[self.pos + 3];
            self.pos = self.pos + 4;
            Ok(((a as u32 * 256 + b as u32) * 256 + c as u32) * 256 + d as u32)
        } else {
            Err(Error::Truncated)
        }
    }

    /// Reads a big-endian two's-complement 32-bit integer.
    pub fn read_i32(&mut self) -> (r: Result<i32, Error>)
        requires
            old(self).wf(),
        ensures
            final(self).wf(),
            final(self).bytes@ == old(self).bytes@,
            old(self).pos + 4 <= old(self).bytes@.len() <==> r is Ok,
            r is Ok ==> r->Ok_0 as int == signed32(be32(
                old(self).bytes@[old(self).pos as int],
                old(self).bytes@[old(self).pos + 1],
                old(self).bytes@[old(self).pos + 2],
                old(self).bytes@[old(self).pos + 3],
            )) && final(self).pos == old(self).pos + 4,
            r is Err ==> r->Err_0 == Error::Truncated && final(self).pos == old(self).pos,
    {
        match self.read_u32() {
            Ok(v) => Ok(to_i32(v)),
            Err(e) => Err(e),
        }
    }

    /// Reads the next `n` bytes.
    pub fn read_bytes(&mut self, n: usize) -> (r: Result<Vec<u8>, Error>)
        requires
            old(self).wf(),
        ensures
            final(self).wf(),
            final(self).bytes@ == old(self).bytes@,
            old(self).pos + n <= old(self).bytes@.len() <==> r is Ok,
            r is Ok ==> r->Ok_0@ == old(self).bytes@.subrange(old(self).pos as int, old(self).pos + n)
                && final(self).pos == old(self).pos + n,
            r is Err ==> r->Err_0 == Error::Truncated && final(self).pos == old(self).pos,
    {
        if self.bytes.len() - self.pos >= n {
            let start = self.pos;
            let mut v: Vec<u8> = Vec::new();
            let mut i: usize = 0;
            while i < n
                invariant
                    start == self.pos,
                    start + n <= self.bytes@.len() <= usize::MAX,
                    i <= n,
                    v@ == self.bytes@.subrange(start as int, start + i),
                decreases n - i,
            {
                v.push(self.bytes[start + i]);
                i = i + 1;
                assert(v@ =~= self.bytes@.subrange(start as int, start + i));
            }
            self.pos = start + n;
            Ok(v)
        } else {
            Err(Error::Truncated)
        }
    }
}

} // verus!
