//! Constant-pool entries and the two pools: one read from a class file,
//! one built while writing.
use vstd::prelude::*;
use crate::bytes::{
    be16, lemma_be16_bytes, lemma_be32_bytes, push_u16, push_u32, u16_bytes, u32_bytes,
    ByteReader, Error,
};

verus! {

pub const TAG_UTF8: u8 = 1;
pub const TAG_INT: u8 = 3;
pub const TAG_FLOAT: u8 = 4;
pub const TAG_LONG: u8 = 5;
pub const TAG_DOUBLE: u8 = 6;
pub const TAG_CLASS: u8 = 7;
pub const TAG_STRING: u8 = 8;
pub const TAG_FIELD: u8 = 9;
pub const TAG_METHOD: u8 = 10;
pub const TAG_INTERFACE_METHOD: u8 = 11;
pub const TAG_NAME_AND_TYPE: u8 = 12;
pub const TAG_METHOD_HANDLE: u8 = 15;
pub const TAG_METHOD_TYPE: u8 = 16;
pub const TAG_DYNAMIC: u8 = 17;
pub const TAG_INVOKE_DYNAMIC: u8 = 18;
pub const TAG_MODULE: u8 = 19;
pub const TAG_PACKAGE: u8 = 20;

/// A constant-pool entry whose references to other entries are still indices.
///
/// Floating-point constants are held as their bit patterns, so that two
/// entries are equal exactly when their encodings are.
#[derive(Debug, Clone, PartialEq, Eq)]
pub enum RawConstantEntry {
    /// Modified UTF-8 bytes.
    UTF8(Vec<u8>),
    Int(i32),
    Float(u32),
    Long(i64),
    Double(u64),
    Class(u16),
    String(u16),
    Field(u16, u16),
    Method(u16, u16),
    InterfaceMethod(u16, u16),
    NameAndType(u16, u16),
    MethodHandle(u8, u16),
    MethodType(u16),
    Dynamic(u16, u16),
    InvokeDynamic(u16, u16),
    Module(u16),
    Package(u16),
}

/// The mathematical value of a [`RawConstantEntry`].
pub enum EntryModel {
    UTF8(Seq<u8>),
    Int(i32),
    Float(u32),
    Long(i64),
    Double(u64),
    Class(u16),
    String(u16),
    Field(u16, u16),
    Method(u16, u16),
    InterfaceMethod(u16, u16),
    NameAndType(u16, u16),
    MethodHandle(u8, u16),
    MethodType(u16),
    Dynamic(u16, u16),
    InvokeDynamic(u16, u16),
    Module(u16),
    Package(u16),
}

impl View for RawConstantEntry {
    type V = EntryModel;

    open spec fn view(&self) -> EntryModel {
        match self {
            RawConstantEntry::UTF8(b) => EntryModel::UTF8(b@),
            RawConstantEntry::Int(v) => EntryModel::Int(*v),
            RawConstantEntry::Float(v) => EntryModel::Float(*v),
            RawConstantEntry::Long(v) => EntryModel::Long(*v),
            RawConstantEntry::Double(v) => EntryModel::Double(*v),
            RawConstantEntry::Class(a) => EntryModel::Class(*a),
            RawConstantEntry::String(a) => EntryModel::String(*a),
            RawConstantEntry::Field(a, b) => EntryModel::Field(*a, *b),
            RawConstantEntry::Method(a, b) => EntryModel::Method(*a, *b),
            RawConstantEntry::InterfaceMethod(a, b) => EntryModel::InterfaceMethod(*a, *b),
            RawConstantEntry::NameAndType(a, b) => EntryModel::NameAndType(*a, *b),
            RawConstantEntry::MethodHandle(a, b) => EntryModel::MethodHandle(*a, *b),
            RawConstantEntry::MethodType(a) => EntryModel::MethodType(*a),
            RawConstantEntry::Dynamic(a, b) => EntryModel::Dynamic(*a, *b),
            RawConstantEntry::InvokeDynamic(a, b) => EntryModel::InvokeDynamic(*a, *b),
            RawConstantEntry::Module(a) => EntryModel::Module(*a),
            RawConstantEntry::Package(a) => EntryModel::Package(*a),
        }
    }
}

impl EntryModel {
    /// Long and Double entries take two slots of the pool.
    pub open spec fn wide(self) -> bool {
        self is Long || self is Double
    }

    pub open spec fn size(self) -> nat {
        if self.wide() {
            2
        } else {
            1
        }
    }
}

/// The eight big-endian bytes of `v`.
pub open spec fn u64_bytes(v: u64) -> Seq<u8> {
    u32_bytes((v / 0x1_0000_0000) as u32) + u32_bytes((v % 0x1_0000_0000) as u32)
}

/// The tag byte followed by two big-endian indices.
pub open spec fn pair_bytes(tag: u8, a: u16, b: u16) -> Seq<u8> {
    seq![tag] + u16_bytes(a) + u16_bytes(b)
}

/// The class-file encoding of an entry.
pub open spec fn entry_bytes(e: EntryModel) -> Seq<u8> {
    match e {
        EntryModel::UTF8(b) => seq![TAG_UTF8] + u16_bytes(b.len() as u16) + b,
        EntryModel::Int(v) => seq![TAG_INT] + u32_bytes(v as u32),
        EntryModel::Float(v) => seq![TAG_FLOAT] + u32_bytes(v),
        EntryModel::Long(v) => seq![TAG_LONG] + u64_bytes(v as u64),
        EntryModel::Double(v) => seq![TAG_DOUBLE] + u64_bytes(v),
        EntryModel::Class(a) => seq![TAG_CLASS] + u16_bytes(a),
        EntryModel::String(a) => seq![TAG_STRING] + u16_bytes(a),
        EntryModel::Field(a, b) => pair_bytes(TAG_FIELD, a, b),
        EntryModel::Method(a, b) => pair_bytes(TAG_METHOD, a, b),
        EntryModel::InterfaceMethod(a, b) => pair_bytes(TAG_INTERFACE_METHOD, a, b),
        EntryModel::NameAndType(a, b) => pair_bytes(TAG_NAME_AND_TYPE, a, b),
        EntryModel::MethodHandle(k, a) => seq![TAG_METHOD_HANDLE, k] + u16_bytes(a),
        EntryModel::MethodType(a) => seq![TAG_METHOD_TYPE] + u16_bytes(a),
        EntryModel::Dynamic(a, b) => pair_bytes(TAG_DYNAMIC, a, b),
        EntryModel::InvokeDynamic(a, b) => pair_bytes(TAG_INVOKE_DYNAMIC, a, b),
        EntryModel::Module(a) => seq![TAG_MODULE] + u16_bytes(a),
        EntryModel::Package(a) => seq![TAG_PACKAGE] + u16_bytes(a),
    }
}

/// An entry can be written when its string fits a two-byte length.
pub open spec fn entry_writable(e: EntryModel) -> bool {
    e is UTF8 ==> e->UTF8_0.len() <= 0xFFFF
}

fn push_u64(out: &mut Vec<u8>, v: u64)
    ensures
        final(out)@ == old(out)@ + u64_bytes(v),
{
    push_u32(out, (v / 0x1_0000_0000) as u32);
    push_u32(out, (v % 0x1_0000_0000) as u32);
    assert(final(out)@ =~= old(out)@ + u64_bytes(v));
}

fn push_pair(out: &mut Vec<u8>, tag: u8, a: u16, b: u16)
    ensures
        final(out)@ == old(out)@ + pair_bytes(tag, a, b),
{
    out.push(tag);
    push_u16(out, a);
    push_u16(out, b);
    assert(final(out)@ =~= old(out)@ + pair_bytes(tag, a, b));
}

pub fn bytes_copy(v: &Vec<u8>) -> (r: Vec<u8>)
    ensures
        r@ == v@,
{
    let mut r: Vec<u8> = Vec::new();
    let mut i: usize = 0;
    while i < v.len()
        invariant
            i <= v@.len(),
            r@ == v@.subrange(0, i as int),
        decreases v@.len() - i,
    {
        r.push(v[i]);
        i = i + 1;
        assert(r@ =~= v@.subrange(0, i as int));
    }
    assert(r@ =~= v@);
    r
}

pub fn bytes_equal(a: &Vec<u8>, b: &Vec<u8>) -> (r: bool)
    ensures
        r == (a@ == b@),
{
    if a.len() != b.len() {
        return false;
    }
    let mut i: usize = 0;
    while i < a.len()
        invariant
            a@.len() == b@.len(),
            i <= a@.len(),
            a@.subrange(0, i as int) == b@.subrange(0, i as int),
        decreases a@.len() - i,
    {
        if a[i] != b[i] {
            return false;
        }
        assert(a@.subrange(0, i + 1) =~= a@.subrange(0, i as int).push(a@[i as int]));
        assert(b@.subrange(0, i + 1) =~= b@.subrange(0, i as int).push(b@[i as int]));
        i = i + 1;
    }
    assert(a@ =~= a@.subrange(0, i as int));
    assert(b@ =~= b@.subrange(0, i as int));
    true
}

impl RawConstantEntry {
    /// returns the size that this entry takes.
    pub fn size(&self) -> (r: u16)
        ensures
            r == self@.size(),
    {
        match self {
            RawConstantEntry::Long(_) | RawConstantEntry::Double(_) => 2,
            _ => 1,
        }
    }

    /// Returns `true` if this entry is a Long/Double constant, which takes 2 indices.
    pub fn is_wide(&self) -> (r: bool)
        ensures
            r == self@.wide(),
    {
        matches!(self, RawConstantEntry::Long(_) | RawConstantEntry::Double(_))
    }

    /// A copy of the entry.
    pub fn duplicate(&self) -> (r: RawConstantEntry)
        ensures
            r@ == self@,
    {
        match self {
            RawConstantEntry::UTF8(b) => RawConstantEntry::UTF8(bytes_copy(b)),
            RawConstantEntry::Int(v) => RawConstantEntry::Int(*v),
            RawConstantEntry::Float(v) => RawConstantEntry::Float(*v),
            RawConstantEntry::Long(v) => RawConstantEntry::Long(*v),
            RawConstantEntry::Double(v) => RawConstantEntry::Double(*v),
            RawConstantEntry::Class(a) => RawConstantEntry::Class(*a),
            RawConstantEntry::String(a) => RawConstantEntry::String(*a),
            RawConstantEntry::Field(a, b) => RawConstantEntry::Field(*a, *b),
            RawConstantEntry::Method(a, b) => RawConstantEntry::Method(*a, *b),
            RawConstantEntry::InterfaceMethod(a, b) => RawConstantEntry::InterfaceMethod(*a, *b),
            RawConstantEntry::NameAndType(a, b) => RawConstantEntry::NameAndType(*a, *b),
            RawConstantEntry::MethodHandle(a, b) => RawConstantEntry::MethodHandle(*a, *b),
            RawConstantEntry::MethodType(a) => RawConstantEntry::MethodType(*a),
            RawConstantEntry::Dynamic(a, b) => RawConstantEntry::Dynamic(*a, *b),
            RawConstantEntry::InvokeDynamic(a, b) => RawConstantEntry::InvokeDynamic(*a, *b),
            RawConstantEntry::Module(a) => RawConstantEntry::Module(*a),
            RawConstantEntry::Package(a) => RawConstantEntry::Package(*a),
        }
    }

    /// Whether two entries are the same constant; floats compare by bit pattern.
    pub fn same(&self, o: &RawConstantEntry) -> (r: bool)
        ensures
            r == (self@ == o@),
    {
        match (self, o) {
            (RawConstantEntry::UTF8(a), RawConstantEntry::UTF8(b)) => bytes_equal(a, b),
            (RawConstantEntry::Int(a), RawConstantEntry::Int(b)) => *a == *b,
            (RawConstantEntry::Float(a), RawConstantEntry::Float(b)) => *a == *b,
            (RawConstantEntry::Long(a), RawConstantEntry::Long(b)) => *a == *b,
            (RawConstantEntry::Double(a), RawConstantEntry::Double(b)) => *a == *b,
            (RawConstantEntry::Class(a), RawConstantEntry::Class(b)) => *a == *b,
            (RawConstantEntry::String(a), RawConstantEntry::String(b)) => *a == *b,
            (RawConstantEntry::Field(a, c), RawConstantEntry::Field(b, d)) => *a == *b && *c == *d,
            (RawConstantEntry::Method(a, c), RawConstantEntry::Method(b, d)) => *a == *b && *c == *d,
            (
                RawConstantEntry::InterfaceMethod(a, c),
                RawConstantEntry::InterfaceMethod(b, d),
            ) => *a == *b && *c == *d,
            (RawConstantEntry::NameAndType(a, c), RawConstantEntry::NameAndType(b, d)) => *a == *b
                && *c == *d,
            (RawConstantEntry::MethodHandle(a, c), RawConstantEntry::MethodHandle(b, d)) => *a
                == *b && *c == *d,
            (RawConstantEntry::MethodType(a), RawConstantEntry::MethodType(b)) => *a == *b,
            (RawConstantEntry::Dynamic(a, c), RawConstantEntry::Dynamic(b, d)) => *a == *b && *c
                == *d,
            (RawConstantEntry::InvokeDynamic(a, c), RawConstantEntry::InvokeDynamic(b, d)) => *a
                == *b && *c == *d,
            (RawConstantEntry::Module(a), RawConstantEntry::Module(b)) => *a == *b,
            (RawConstantEntry::Package(a), RawConstantEntry::Package(b)) => *a == *b,
            _ => false,
        }
    }

    /// Appends the class-file encoding of the entry.
    pub fn write_to(&self, out: &mut Vec<u8>)
        requires
            entry_writable(self@),
        ensures
            final(out)@ == old(out)@ + entry_bytes(self@),
    {
        match self {
            RawConstantEntry::UTF8(b) => {
                out.push(TAG_UTF8);
                push_u16(out, b.len() as u16);
                let mut i: usize = 0;
                let ghost mid = out@;
                while i < b.len()
                    invariant
                        i <= b@.len(),
                        out@ == mid + b@.subrange(0, i as int),
                    decreases b@.len() - i,
                {
                    out.push(b[i]);
                    i = i + 1;
                    assert(out@ =~= mid + b@.subrange(0, i as int));
                }
                assert(b@.subrange(0, i as int) =~= b@);
            },
            RawConstantEntry::Int(v) => {
                out.push(TAG_INT);
                push_u32(out, *v as u32);
            },
            RawConstantEntry::Float(v) => {
                out.push(TAG_FLOAT);
                push_u32(out, *v);
            },
            RawConstantEntry::Long(v) => {
                out.push(TAG_LONG);
                push_u64(out, *v as u64);
            },
            RawConstantEntry::Double(v) => {
                out.push(TAG_DOUBLE);
                push_u64(out, *v);
            },
            RawConstantEntry::Class(a) => {
                out.push(TAG_CLASS);
                push_u16(out, *a);
            },
            RawConstantEntry::String(a) => {
                out.push(TAG_STRING);
                push_u16(out, *a);
            },
            RawConstantEntry::Field(a, b) => push_pair(out, TAG_FIELD, *a, *b),
            RawConstantEntry::Method(a, b) => push_pair(out, TAG_METHOD, *a, *b),
            RawConstantEntry::InterfaceMethod(a, b) => push_pair(out, TAG_INTERFACE_METHOD, *a, *b),
            RawConstantEntry::NameAndType(a, b) => push_pair(out, TAG_NAME_AND_TYPE, *a, *b),
            RawConstantEntry::MethodHandle(k, a) => {
                out.push(TAG_METHOD_HANDLE);
                out.push(*k);
                push_u16(out, *a);
            },
            RawConstantEntry::MethodType(a) => {
                out.push(TAG_METHOD_TYPE);
                push_u16(out, *a);
            },
            RawConstantEntry::Dynamic(a, b) => push_pair(out, TAG_DYNAMIC, *a, *b),
            RawConstantEntry::InvokeDynamic(a, b) => push_pair(out, TAG_INVOKE_DYNAMIC, *a, *b),
            RawConstantEntry::Module(a) => {
                out.push(TAG_MODULE);
                push_u16(out, *a);
            },
            RawConstantEntry::Package(a) => {
                out.push(TAG_PACKAGE);
                push_u16(out, *a);
            },
        }
        assert(final(out)@ =~= old(out)@ + entry_bytes(self@));
    }
}

/// The tags that start an entry.
pub open spec fn valid_tag(t: u8) -> bool {
    1 == t || (3 <= t <= 12) || (15 <= t <= 20)
}

/// The length of the entry encoding that `s` starts with, as its tag and,
/// for a string, its length field say.
pub open spec fn entry_size_at(s: Seq<u8>) -> int {
    let t = s[0];
    if t == TAG_UTF8 {
        if s.len() >= 3 {
            3 + be16(s[1], s[2])
        } else {
            3
        }
    } else if t == TAG_INT || t == TAG_FLOAT {
        5
    } else if t == TAG_LONG || t == TAG_DOUBLE {
        9
    } else if t == TAG_METHOD_HANDLE {
        4
    } else if t == TAG_CLASS || t == TAG_STRING || t == TAG_METHOD_TYPE || t == TAG_MODULE || t
        == TAG_PACKAGE {
        3
    } else {
        5
    }
}

/// `s` starts with a whole entry: a valid tag and all the bytes it calls for.
pub open spec fn entry_decodable(s: Seq<u8>) -> bool {
    s.len() > 0 && valid_tag(s[0]) && s.len() >= entry_size_at(s)
}

pub proof fn lemma_rest_index(r: ByteReader)
    requires
        r.wf(),
    ensures
        r.rest().len() == r.bytes@.len() - r.pos,
        forall|i: int| 0 <= i < r.rest().len() ==> #[trigger] r.rest()[i] == r.bytes@[r.pos + i],
{
}

/// An encoded entry, followed by anything, is decodable.
pub proof fn lemma_entry_decodable(e: EntryModel, s: Seq<u8>)
    requires
        entry_writable(e),
        entry_bytes(e).len() <= s.len(),
        s.subrange(0, entry_bytes(e).len() as int) == entry_bytes(e),
    ensures
        entry_decodable(s),
        entry_size_at(s) == entry_bytes(e).len(),
{
    let b = entry_bytes(e);
    assert forall|i: int| 0 <= i < b.len() implies s[i] == b[i] by {
        assert(s.subrange(0, b.len() as int)[i] == s[i]);
    }
    if let EntryModel::UTF8(x) = e {
        assert(b.subrange(1, 3) =~= u16_bytes(x.len() as u16));
        lemma_be16_bytes(s[1], s[2]);
        assert(seq![s[1], s[2]] =~= b.subrange(1, 3));
        lemma_u16_bytes_injective((be16(s[1], s[2])) as u16, x.len() as u16);
    }
}

/// From slot `i` on, `s` holds decodable entries until slot `count` is reached.
pub open spec fn entries_decodable(s: Seq<u8>, i: int, count: int) -> bool
    decreases count + 1 - i,
{
    if i >= count {
        true
    } else if !entry_decodable(s) {
        false
    } else {
        let step: int = if s[0] == TAG_LONG || s[0] == TAG_DOUBLE {
            2
        } else {
            1
        };
        entries_decodable(s.subrange(entry_size_at(s), s.len() as int), i + step, count)
    }
}

/// `s` starts with a pool: a two-byte count, then entries filling its slots.
pub open spec fn pool_decodable(s: Seq<u8>) -> bool {
    s.len() >= 2 && entries_decodable(s.subrange(2, s.len() as int), 1, be16(s[0], s[1]))
}

/// Reads a big-endian two-byte value, knowing what bytes it came from.
pub fn read_u16_at(r: &mut ByteReader) -> (v: Result<u16, Error>)
    requires
        old(r).wf(),
    ensures
        final(r).wf(),
        final(r).bytes@ == old(r).bytes@,
        v is Ok ==> final(r).pos == old(r).pos + 2 && old(r).bytes@.subrange(
            old(r).pos as int,
            old(r).pos + 2,
        ) == u16_bytes(v->Ok_0),
        v is Ok <==> old(r).pos + 2 <= old(r).bytes@.len(),
        v is Err ==> v->Err_0 == Error::Truncated,
{
    let ghost p = r.pos;
    let v = r.read_u16();
    proof {
        if v is Ok {
            lemma_be16_bytes(r.bytes@[p as int], r.bytes@[p + 1]);
            assert(r.bytes@.subrange(p as int, p + 2) =~= seq![r.bytes@[p as int], r.bytes@[p + 1]]);
        }
    }
    v
}

/// Reads a big-endian four-byte value, knowing what bytes it came from.
fn read_u32_at(r: &mut ByteReader) -> (v: Result<u32, Error>)
    requires
        old(r).wf(),
    ensures
        final(r).wf(),
        final(r).bytes@ == old(r).bytes@,
        v is Ok ==> final(r).pos == old(r).pos + 4 && old(r).bytes@.subrange(
            old(r).pos as int,
            old(r).pos + 4,
        ) == u32_bytes(v->Ok_0),
        v is Ok <==> old(r).pos + 4 <= old(r).bytes@.len(),
        v is Err ==> v->Err_0 == Error::Truncated,
{
    let ghost p = r.pos;
    let v = r.read_u32();
    proof {
        if v is Ok {
            let s = r.bytes@;
            lemma_be32_bytes(s[p as int], s[p + 1], s[p + 2], s[p + 3]);
            assert(s.subrange(p as int, p + 4) =~= seq![s[p as int], s[p + 1], s[p + 2], s[p + 3]]);
        }
    }
    v
}

proof fn lemma_subrange_concat(s: Seq<u8>, a: int, b: int, c: int)
    requires
        0 <= a <= b <= c <= s.len(),
    ensures
        s.subrange(a, c) == s.subrange(a, b) + s.subrange(b, c),
{
    assert(s.subrange(a, c) =~= s.subrange(a, b) + s.subrange(b, c));
}

impl RawConstantEntry {
    /// Reads one entry in its class-file encoding.
    pub fn read_from(r: &mut ByteReader) -> (res: Result<RawConstantEntry, Error>)
        requires
            old(r).wf(),
        ensures
            final(r).wf(),
            final(r).bytes@ == old(r).bytes@,
            res is Ok ==> old(r).pos <= final(r).pos && old(r).bytes@.subrange(
                old(r).pos as int,
                final(r).pos as int,
            ) == entry_bytes(res->Ok_0@) && entry_writable(res->Ok_0@),
            res is Err && res->Err_0 is Invalid <==> old(r).pos < old(r).bytes@.len() && !valid_tag(
                old(r).bytes@[old(r).pos as int],
            ),
            res is Err ==> res->Err_0 is Invalid || res->Err_0 is Truncated,
            res is Ok <==> entry_decodable(old(r).rest()),
    {
        let ghost s = r.bytes@;
        let ghost at0 = r.pos as int;
        proof {
            lemma_rest_index(*r);
        }
        let tag = r.read_u8()?;
        let ghost at1 = r.pos as int;
        if tag == TAG_UTF8 {
            let n = read_u16_at(r)?;
            let ghost at2 = r.pos as int;
            let b = r.read_bytes(n as usize)?;
            proof {
                lemma_subrange_concat(s, at0, at1, at2);
                lemma_subrange_concat(s, at0, at2, r.pos as int);
                assert(s.subrange(at0, at1) =~= seq![tag]);
            }
            return Ok(RawConstantEntry::UTF8(b));
        }
        if tag == TAG_INT || tag == TAG_FLOAT {
            let v = read_u32_at(r)?;
            proof {
                lemma_subrange_concat(s, at0, at1, r.pos as int);
                assert(s.subrange(at0, at1) =~= seq![tag]);
                assert(((v as i32) as u32) == v) by (bit_vector);
            }
            if tag == TAG_INT {
                return Ok(RawConstantEntry::Int(v as i32));
            } else {
                return Ok(RawConstantEntry::Float(v));
            }
        }
        if tag == TAG_LONG || tag == TAG_DOUBLE {
            let hi = read_u32_at(r)?;
            let ghost at2 = r.pos as int;
            let lo = read_u32_at(r)?;
            let v: u64 = hi as u64 * 0x1_0000_0000 + lo as u64;
            proof {
                lemma_subrange_concat(s, at0, at1, at2);
                lemma_subrange_concat(s, at0, at2, r.pos as int);
                assert(s.subrange(at0, at1) =~= seq![tag]);
                assert(((v as i64) as u64) == v) by (bit_vector);
                assert(v / 0x1_0000_0000 == hi as u64 && v % 0x1_0000_0000 == lo as u64);
            }
            if tag == TAG_LONG {
                return Ok(RawConstantEntry::Long(v as i64));
            } else {
                return Ok(RawConstantEntry::Double(v));
            }
        }
        if tag == TAG_METHOD_HANDLE {
            let k = r.read_u8()?;
            let a = read_u16_at(r)?;
            proof {
                lemma_subrange_concat(s, at0, at1 + 1, r.pos as int);
                assert(s.subrange(at0, at1 + 1) =~= seq![tag, k]);
            }
            return Ok(RawConstantEntry::MethodHandle(k, a));
        }
        if tag == TAG_CLASS || tag == TAG_STRING || tag == TAG_METHOD_TYPE || tag == TAG_MODULE
            || tag == TAG_PACKAGE {
            let a = read_u16_at(r)?;
            proof {
                lemma_subrange_concat(s, at0, at1, r.pos as int);
                assert(s.subrange(at0, at1) =~= seq![tag]);
            }
            return Ok(
                if tag == TAG_CLASS {
                    RawConstantEntry::Class(a)
                } else if tag == TAG_STRING {
                    RawConstantEntry::String(a)
                } else if tag == TAG_METHOD_TYPE {
                    RawConstantEntry::MethodType(a)
                } else if tag == TAG_MODULE {
                    RawConstantEntry::Module(a)
                } else {
                    RawConstantEntry::Package(a)
                },
            );
        }
        if (TAG_FIELD <= tag && tag <= TAG_NAME_AND_TYPE) || tag == TAG_DYNAMIC || tag
            == TAG_INVOKE_DYNAMIC {
            let a = read_u16_at(r)?;
            let ghost at2 = r.pos as int;
            let b = read_u16_at(r)?;
            proof {
                lemma_subrange_concat(s, at0, at1, at2);
                lemma_subrange_concat(s, at0, at2, r.pos as int);
                assert(s.subrange(at0, at1) =~= seq![tag]);
            }
            return Ok(
                if tag == TAG_FIELD {
                    RawConstantEntry::Field(a, b)
                } else if tag == TAG_METHOD {
                    RawConstantEntry::Method(a, b)
                } else if tag == TAG_INTERFACE_METHOD {
                    RawConstantEntry::InterfaceMethod(a, b)
                } else if tag == TAG_NAME_AND_TYPE {
                    RawConstantEntry::NameAndType(a, b)
                } else if tag == TAG_DYNAMIC {
                    RawConstantEntry::Dynamic(a, b)
                } else {
                    RawConstantEntry::InvokeDynamic(a, b)
                },
            );
        }
        Err(Error::Invalid("constant pool tag"))
    }
}

/// The number of pool slots that a run of entries takes.
pub open spec fn slots(es: Seq<EntryModel>) -> nat
    decreases es.len(),
{
    if es.len() == 0 {
        0
    } else {
        slots(es.drop_last()) + es.last().size()
    }
}

/// The encodings of a run of entries, one after another.
pub open spec fn entries_bytes(es: Seq<EntryModel>) -> Seq<u8>
    decreases es.len(),
{
    if es.len() == 0 {
        Seq::empty()
    } else {
        entries_bytes(es.drop_last()) + entry_bytes(es.last())
    }
}

/// Every entry of a run can be encoded.
pub open spec fn all_writable(es: Seq<EntryModel>) -> bool {
    forall|i: int| 0 <= i < es.len() ==> entry_writable(#[trigger] es[i])
}

/// The index of each entry of a run: the first one is 1, and a wide entry
/// leaves the slot after it empty.
pub open spec fn pool_map(es: Seq<EntryModel>) -> Map<u16, EntryModel>
    decreases es.len(),
{
    if es.len() == 0 {
        Map::empty()
    } else {
        pool_map(es.drop_last()).insert((1 + slots(es.drop_last())) as u16, es.last())
    }
}

proof fn lemma_model_insert(m: Map<u16, RawConstantEntry>, k: u16, v: RawConstantEntry)
    ensures
        m.insert(k, v).map_values(|e: RawConstantEntry| e@) == m.map_values(
            |e: RawConstantEntry| e@,
        ).insert(k, v@),
{
    assert(m.insert(k, v).map_values(|e: RawConstantEntry| e@) =~= m.map_values(
        |e: RawConstantEntry| e@,
    ).insert(k, v@));
}

/// A bootstrap method: the pool index of its method handle and those of its arguments.
#[derive(Debug, Clone, PartialEq, Eq)]
pub struct BootstrapMethod {
    pub handle: u16,
    pub args: Vec<u16>,
}

impl View for BootstrapMethod {
    type V = (u16, Seq<u16>);

    open spec fn view(&self) -> (u16, Seq<u16>) {
        (self.handle, self.args@)
    }
}

impl BootstrapMethod {
    /// A copy of the method.
    pub fn duplicate(&self) -> (r: BootstrapMethod)
        ensures
            r@ == self@,
    {
        let mut args: Vec<u16> = Vec::new();
        let mut i: usize = 0;
        while i < self.args.len()
            invariant
                i <= self.args@.len(),
                args@ == self.args@.subrange(0, i as int),
            decreases self.args@.len() - i,
        {
            args.push(self.args[i]);
            i = i + 1;
            assert(args@ =~= self.args@.subrange(0, i as int));
        }
        assert(args@ =~= self.args@);
        BootstrapMethod { handle: self.handle, args }
    }
}

/// The pending references whose method lies past a table of `n` methods.
pub open spec fn unresolved_refs(p: Seq<(u16, u16)>, n: nat) -> Seq<(u16, u16)>
    decreases p.len(),
{
    if p.len() == 0 {
        p
    } else if (p.last().0 as nat) < n {
        unresolved_refs(p.drop_last(), n)
    } else {
        unresolved_refs(p.drop_last(), n).push(p.last())
    }
}

/// The filled references, in order: each resolvable holder with its method.
pub open spec fn resolved_refs(p: Seq<(u16, u16)>, bsms: Seq<(u16, Seq<u16>)>) -> Seq<(u16, (u16, Seq<u16>))>
    decreases p.len(),
{
    if p.len() == 0 {
        Seq::empty()
    } else if (p.last().0 as nat) < bsms.len() {
        resolved_refs(p.drop_last(), bsms).push((p.last().1, bsms[p.last().0 as int]))
    } else {
        resolved_refs(p.drop_last(), bsms)
    }
}

proof fn lemma_unresolved_empty(p: Seq<(u16, u16)>, n: nat)
    ensures
        unresolved_refs(p, n).len() == 0 <==> forall|i: int| 0 <= i < p.len() ==> (p[i].0 as nat) < n,
    decreases p.len(),
{
    if p.len() > 0 {
        lemma_unresolved_empty(p.drop_last(), n);
        if unresolved_refs(p, n).len() == 0 {
            assert forall|i: int| 0 <= i < p.len() implies (p[i].0 as nat) < n by {
                if i < p.len() - 1 {
                    assert(p.drop_last()[i] == p[i]);
                }
            }
        }
        if forall|i: int| 0 <= i < p.len() ==> (p[i].0 as nat) < n {
            assert forall|i: int| 0 <= i < p.drop_last().len() implies (p.drop_last()[i].0 as nat) < n by {
                assert(p.drop_last()[i] == p[i]);
            }
            assert((p[p.len() - 1].0 as nat) < n);
        }
    }
}

/// A simple constant pool reader: entries by index, and the references to
/// bootstrap methods that wait for the class's bootstrap-method table.
#[derive(Debug)]
pub struct MapCp {
    /// The entries of this constant pool, by index; the slot after a wide
    /// entry has none.
    pub entries: std::collections::HashMap<u16, RawConstantEntry>,
    /// Pending references: (bootstrap-method index, index of the entry that refers to it).
    refs: Vec<(u16, u16)>,
    /// Filled references: (index of the referring entry, its bootstrap method).
    bound: Vec<(u16, BootstrapMethod)>,
}

impl MapCp {
    /// The entries as values.
    pub closed spec fn model(&self) -> Map<u16, EntryModel> {
        self.entries@.map_values(|e: RawConstantEntry| e@)
    }

    pub closed spec fn pending(&self) -> Seq<(u16, u16)> {
        self.refs@
    }

    pub closed spec fn filled(&self) -> Seq<(u16, (u16, Seq<u16>))> {
        self.bound@.map_values(|b: (u16, BootstrapMethod)| (b.0, b.1@))
    }

    /// Creates a new constant pool with no entries.
    pub fn new() -> (r: MapCp)
        ensures
            r.model() == Map::<u16, EntryModel>::empty(),
            r.pending() == Seq::<(u16, u16)>::empty(),
            r.filled() == Seq::<(u16, (u16, Seq<u16>))>::empty(),
    {
        let r = MapCp {
            entries: std::collections::HashMap::new(),
            refs: Vec::new(),
            bound: Vec::new(),
        };
        assert(r.model() =~= Map::<u16, EntryModel>::empty());
        assert(r.filled() =~= Seq::<(u16, (u16, Seq<u16>))>::empty());
        r
    }

    /// Reads a pool: its count, then its entries from index 1 on, a wide
    /// entry taking two indices.
    pub fn read_from(r: &mut ByteReader) -> (res: Result<MapCp, Error>)
        requires
            old(r).wf(),
        ensures
            final(r).wf(),
            final(r).bytes@ == old(r).bytes@,
            res is Ok ==> exists|count: u16, es: Seq<EntryModel>|
                {
                    &&& old(r).pos <= final(r).pos
                    &&& old(r).bytes@.subrange(old(r).pos as int, final(r).pos as int) == u16_bytes(
                        count,
                    ) + entries_bytes(es)
                    &&& 1 + slots(es) >= count
                    &&& (es.len() == 0 || 1 + slots(es.drop_last()) < count)
                    &&& all_writable(es)
                    &&& res->Ok_0.model() == pool_map(es)
                    &&& res->Ok_0.pending().len() == 0
                    &&& res->Ok_0.filled().len() == 0
                },
            res is Ok <==> pool_decodable(old(r).rest()),
            res is Err ==> res->Err_0 is Invalid || res->Err_0 is Truncated,
    {
        broadcast use vstd::std_specs::hash::group_hash_axioms;

        let ghost s = r.bytes@;
        let ghost at0 = r.pos as int;
        proof {
            lemma_rest_index(*r);
        }
        let count = read_u16_at(r)?;
        proof {
            lemma_be16_bytes(s[at0], s[at0 + 1]);
            assert(seq![s[at0], s[at0 + 1]] =~= s.subrange(at0, at0 + 2));
            lemma_u16_bytes_injective(count, be16(s[at0], s[at0 + 1]) as u16);
            assert(old(r).rest().subrange(2, old(r).rest().len() as int) =~= r.rest());
        }
        let mut cp = MapCp::new();
        let mut i: u32 = 1;
        let ghost mut es: Seq<EntryModel> = Seq::empty();
        while i < count as u32
            invariant
                r.wf(),
                r.bytes@ == s,
                s == old(r).bytes@,
                at0 == old(r).pos,
                r.pos <= s.len(),
                at0 + 2 <= r.pos,
                s.subrange(at0, at0 + 2) == u16_bytes(count),
                s.subrange(at0 + 2, r.pos as int) == entries_bytes(es),
                i == 1 + slots(es),
                i <= count as int + 1,
                es.len() == 0 || 1 + slots(es.drop_last()) < count,
                all_writable(es),
                cp.model() == pool_map(es),
                cp.pending().len() == 0,
                cp.filled().len() == 0,
                pool_decodable(old(r).rest()) <==> entries_decodable(r.rest(), i as int, count as int),
            decreases count as int + 1 - i,
        {
            let ghost before = r.pos as int;
            let ghost rest0 = r.rest();
            let entry = RawConstantEntry::read_from(r)?;
            proof {
                let b = entry_bytes(entry@);
                assert(rest0.subrange(0, b.len() as int) =~= s.subrange(before, r.pos as int));
                lemma_entry_decodable(entry@, rest0);
                lemma_tag(entry@);
                assert(rest0[0] == b[0]) by {
                    assert(rest0.subrange(0, b.len() as int)[0] == rest0[0]);
                }
                assert(rest0.subrange(entry_size_at(rest0), rest0.len() as int) =~= r.rest());
            }
            let idx = i as u16;
            let ghost e = entry@;
            i = i + entry.size() as u32;
            let ghost m0 = cp.entries@;
            cp.entries.insert(idx, entry);
            proof {
                let es2 = es.push(e);
                assert(es2.drop_last() =~= es);
                assert(slots(es2) == slots(es) + e.size());
                lemma_subrange_concat(s, at0 + 2, before, r.pos as int);
                lemma_model_insert(m0, idx, entry);
                es = es2;
            }
        }
        proof {
            lemma_subrange_concat(s, at0, at0 + 2, r.pos as int);
        }
        Ok(cp)
    }

    /// The entry at `idx`, if there is one.
    pub fn read_raw(&self, idx: u16) -> (r: Option<RawConstantEntry>)
        ensures
            r is Some <==> self.model().contains_key(idx),
            r is Some ==> r->Some_0@ == self.model()[idx],
    {
        broadcast use vstd::std_specs::hash::group_hash_axioms;

        match self.entries.get(&idx) {
            Some(e) => Some(e.duplicate()),
            None => None,
        }
    }

    /// Registers the entry at `holder` as waiting for bootstrap method `bsm_idx`.
    pub fn resolve_later(&mut self, bsm_idx: u16, holder: u16)
        ensures
            final(self).model() == old(self).model(),
            final(self).pending() == old(self).pending().push((bsm_idx, holder)),
            final(self).filled() == old(self).filled(),
    {
        self.refs.push((bsm_idx, holder));
    }

    /// Fills every pending reference whose method the class's
    /// bootstrap-method table holds. Fails with `Unresolved` when a
    /// reference lies past the table's end; such references stay pending,
    /// the others are filled all the same.
    pub fn bootstrap_methods(&mut self, bsms: &[BootstrapMethod]) -> (r: Result<(), Error>)
        ensures
            final(self).model() == old(self).model(),
            r is Ok <==> forall|i: int|
                0 <= i < old(self).pending().len() ==> old(self).pending()[i].0 < bsms@.len(),
            r is Err ==> r == Err::<(), Error>(Error::Unresolved),
            final(self).pending() == unresolved_refs(old(self).pending(), bsms@.len()),
            final(self).filled() == old(self).filled() + resolved_refs(
                old(self).pending(),
                bsms@.map_values(|b: BootstrapMethod| b@),
            ),
    {
        let ghost pend = self.refs@;
        let ghost filled0 = self.filled();
        let ghost views = bsms@.map_values(|b: BootstrapMethod| b@);
        let mut left: Vec<(u16, u16)> = Vec::new();
        let mut j: usize = 0;
        while j < self.refs.len()
            invariant
                self.entries@ == old(self).entries@,
                self.refs@ == pend,
                pend == old(self).pending(),
                views == bsms@.map_values(|b: BootstrapMethod| b@),
                j <= pend.len(),
                left@ == unresolved_refs(pend.subrange(0, j as int), bsms@.len()),
                self.filled() == filled0 + resolved_refs(pend.subrange(0, j as int), views),
            decreases pend.len() - j,
        {
            let (b, holder) = self.refs[j];
            let ghost prev = self.filled();
            proof {
                let t = pend.subrange(0, j + 1);
                assert(t.drop_last() =~= pend.subrange(0, j as int));
                assert(t.last() == (b, holder));
            }
            if (b as usize) < bsms.len() {
                let m = bsms[b as usize].duplicate();
                self.bound.push((holder, m));
                assert(self.filled() =~= prev.push((holder, m@)));
            } else {
                left.push((b, holder));
            }
            j = j + 1;
        }
        assert(pend.subrange(0, j as int) =~= pend);
        proof {
            lemma_unresolved_empty(pend, bsms@.len());
        }
        let done = left.len() == 0;
        self.refs = left;
        if done {
            Ok(())
        } else {
            Err(Error::Unresolved)
        }
    }

    /// The bootstrap method filled in for the entry at `holder`, if any.
    pub fn bootstrap_method_of(&self, holder: u16) -> (r: Option<BootstrapMethod>)
        ensures
            r is Some <==> exists|i: int|
                0 <= i < self.filled().len() && self.filled()[i].0 == holder,
            r is Some ==> exists|i: int|
                0 <= i < self.filled().len() && self.filled()[i].0 == holder
                    && self.filled()[i].1 == r->Some_0@,
    {
        let mut i: usize = 0;
        while i < self.bound.len()
            invariant
                i <= self.bound@.len(),
                forall|j: int| 0 <= j < i ==> self.filled()[j].0 != holder,
            decreases self.bound@.len() - i,
        {
            if self.bound[i].0 == holder {
                let m = self.bound[i].1.duplicate();
                assert(self.filled()[i as int].0 == holder);
                return Some(m);
            }
            i = i + 1;
        }
        None
    }
}

/// A constant pool writer: entries in the order they were first inserted,
/// each given the next free index.
pub struct VecCp {
    entries: Vec<RawConstantEntry>,
    /// The index given to each entry.
    indices: Vec<u16>,
    /// The next free index: one more than the slots taken.
    len: u16,
    bsm: Vec<BootstrapMethod>,
}

impl VecCp {
    pub closed spec fn models(&self) -> Seq<EntryModel> {
        self.entries@.map_values(|e: RawConstantEntry| e@)
    }

    /// The bootstrap methods inserted so far.
    pub closed spec fn bsms(&self) -> Seq<(u16, Seq<u16>)> {
        self.bsm@.map_values(|b: BootstrapMethod| b@)
    }

    /// The index the next new entry gets.
    pub closed spec fn next_index(&self) -> nat {
        self.len as nat
    }

    /// The index given to the entry at position `i` of [`Self::models`].
    pub closed spec fn index_at(&self, i: int) -> u16 {
        self.indices@[i]
    }

    pub open spec fn contains(&self, e: EntryModel) -> bool {
        exists|i: int| 0 <= i < self.models().len() && self.models()[i] == e
    }

    pub closed spec fn wf(&self) -> bool {
        &&& self.entries@.len() == self.indices@.len()
        &&& self.len == 1 + slots(self.models())
        &&& forall|i: int|
            0 <= i < self.indices@.len() ==> self.indices@[i] == 1 + slots(
                #[trigger] self.models().subrange(0, i),
            )
        &&& forall|i: int, j: int|
            0 <= i < j < self.entries@.len() ==> self.models()[i] != self.models()[j]
        &&& forall|i: int| 0 <= i < self.entries@.len() ==> entry_writable(#[trigger] self.models()[i])
    }

    /// A well-formed pool holds each value once.
    pub proof fn lemma_values_distinct(&self)
        requires
            self.wf(),
        ensures
            forall|i: int, j: int|
                0 <= i < j < self.models().len() ==> self.models()[i] != self.models()[j],
    {
    }

    /// Each value's index is one more than the slots taken before it, so a
    /// pool written by [`VecCp::write_to`] and read by [`MapCp::read_from`]
    /// holds every value at the index it was given here.
    pub proof fn lemma_indices(&self)
        requires
            self.wf(),
        ensures
            forall|i: int|
                0 <= i < self.models().len() ==> #[trigger] self.index_at(i) == 1 + slots(
                    self.models().subrange(0, i),
                ),
            self.next_index() == 1 + slots(self.models()),
    {
    }

    /// Creates an empty constant pool.
    pub fn new() -> (r: VecCp)
        ensures
            r.wf(),
            r.models() == Seq::<EntryModel>::empty(),
            r.next_index() == 1,
            r.bsms().len() == 0,
    {
        let r = VecCp { entries: Vec::new(), indices: Vec::new(), len: 1, bsm: Vec::new() };
        assert(r.models() =~= Seq::<EntryModel>::empty());
        r
    }

    /// The index of `value` if the pool holds it already.
    pub fn find(&self, value: &RawConstantEntry) -> (r: Option<u16>)
        requires
            self.wf(),
        ensures
            r is Some <==> self.contains(value@),
            r is Some ==> exists|i: int|
                0 <= i < self.models().len() && self.models()[i] == value@ && self.index_at(i)
                    == r->Some_0,
    {
        let mut i: usize = 0;
        while i < self.entries.len()
            invariant
                self.wf(),
                i <= self.entries@.len(),
                forall|j: int| 0 <= j < i ==> self.models()[j] != value@,
            decreases self.entries@.len() - i,
        {
            if self.entries[i].same(value) {
                assert(self.models()[i as int] == value@);
                assert(self.index_at(i as int) == self.indices@[i as int]);
                return Some(self.indices[i]);
            }
            i = i + 1;
        }
        None
    }

    /// Whether `value` can be inserted: it is there already, or its slots
    /// fit below index 65535.
    pub fn can_insert(&self, value: &RawConstantEntry) -> (r: bool)
        requires
            self.wf(),
        ensures
            r == (self.contains(value@) || self.next_index() + value@.size() <= 0xFFFF),
    {
        match self.find(value) {
            Some(_) => true,
            None => self.len as u32 + value.size() as u32 <= 0xFFFF,
        }
    }

    /// Inserts an entry, returning its index. An entry the pool holds already
    /// keeps its index; a new one takes the next free index.
    pub fn insert_raw(&mut self, value: RawConstantEntry) -> (r: u16)
        requires
            old(self).wf(),
            entry_writable(value@),
            old(self).contains(value@) || old(self).next_index() + value@.size() <= 0xFFFF,
        ensures
            final(self).wf(),
            final(self).bsms() == old(self).bsms(),
            old(self).contains(value@) ==> final(self).models() == old(self).models()
                && final(self).next_index() == old(self).next_index() && exists|i: int|
                0 <= i < old(self).models().len() && old(self).models()[i] == value@
                    && old(self).index_at(i) == r,
            !old(self).contains(value@) ==> final(self).models() == old(self).models().push(
                value@,
            ) && r == old(self).next_index() && final(self).next_index() == old(
                self,
            ).next_index() + value@.size(),
            !old(self).contains(value@) ==> final(self).index_at(old(self).models().len() as int)
                == r,
            final(self).contains(value@),
            forall|i: int|
                0 <= i < final(self).models().len() && final(self).models()[i] == value@
                    ==> final(self).index_at(i) == r,
            forall|i: int|
                0 <= i < old(self).models().len() ==> final(self).index_at(i) == old(
                    self,
                ).index_at(i),
    {
        if let Some(val) = self.find(&value) {
            return val;
        }
        let idx = self.len;
        let ghost old_models = self.models();
        self.len = idx + value.size();
        self.entries.push(value);
        self.indices.push(idx);
        proof {
            assert(self.models() =~= old_models.push(value@));
            assert(self.models().drop_last() =~= old_models);
            assert forall|i: int| 0 <= i < self.indices@.len() implies self.indices@[i] == 1
                + slots(#[trigger] self.models().subrange(0, i)) by {
                if i < old_models.len() {
                    assert(self.models().subrange(0, i) =~= old_models.subrange(0, i));
                } else {
                    assert(self.models().subrange(0, i) =~= old_models);
                }
            }
        }
        idx
    }

    /// Appends a bootstrap method, returning its index.
    pub fn insert_bsm(&mut self, bsm: BootstrapMethod) -> (r: u16)
        requires
            old(self).bsms().len() < 0xFFFF,
        ensures
            r == old(self).bsms().len(),
            final(self).bsms() == old(self).bsms().push(bsm@),
            final(self).models() == old(self).models(),
            final(self).next_index() == old(self).next_index(),
            forall|i: int| final(self).index_at(i) == old(self).index_at(i),
            final(self).wf() == old(self).wf(),
    {
        let ret = self.bsm.len() as u16;
        self.bsm.push(bsm);
        assert(self.bsms() =~= old(self).bsms().push(bsm@));
        ret
    }

    /// Writes the pool: the next free index as its count, then each entry.
    pub fn write_to(&self, out: &mut Vec<u8>)
        requires
            self.wf(),
        ensures
            final(out)@ == old(out)@ + u16_bytes(self.next_index() as u16) + entries_bytes(self.models()),
            self.next_index() == 1 + slots(self.models()),
            all_writable(self.models()),
    {
        push_u16(out, self.len);
        let ghost mid = out@;
        let mut i: usize = 0;
        while i < self.entries.len()
            invariant
                self.wf(),
                i <= self.entries@.len(),
                out@ == mid + entries_bytes(self.models().subrange(0, i as int)),
            decreases self.entries@.len() - i,
        {
            assert(entry_writable(self.models()[i as int]));
            self.entries[i].write_to(out);
            proof {
                let t = self.models().subrange(0, i + 1);
                assert(t.drop_last() =~= self.models().subrange(0, i as int));
            }
            i = i + 1;
        }
        assert(self.models().subrange(0, i as int) =~= self.models());
    }
}

proof fn lemma_u16_bytes_injective(a: u16, b: u16)
    requires
        u16_bytes(a) == u16_bytes(b),
    ensures
        a == b,
{
    assert(u16_bytes(a)[0] == u16_bytes(b)[0]);
    assert(u16_bytes(a)[1] == u16_bytes(b)[1]);
}

proof fn lemma_u32_bytes_injective(a: u32, b: u32)
    requires
        u32_bytes(a) == u32_bytes(b),
    ensures
        a == b,
{
    assert(u32_bytes(a)[0] == u32_bytes(b)[0]);
    assert(u32_bytes(a)[1] == u32_bytes(b)[1]);
    assert(u32_bytes(a)[2] == u32_bytes(b)[2]);
    assert(u32_bytes(a)[3] == u32_bytes(b)[3]);
}

proof fn lemma_u64_bytes_injective(a: u64, b: u64)
    requires
        u64_bytes(a) == u64_bytes(b),
    ensures
        a == b,
{
    let (ah, al) = ((a / 0x1_0000_0000) as u32, (a % 0x1_0000_0000) as u32);
    let (bh, bl) = ((b / 0x1_0000_0000) as u32, (b % 0x1_0000_0000) as u32);
    assert(u64_bytes(a).subrange(0, 4) =~= u32_bytes(ah));
    assert(u64_bytes(b).subrange(0, 4) =~= u32_bytes(bh));
    assert(u64_bytes(a).subrange(4, 8) =~= u32_bytes(al));
    assert(u64_bytes(b).subrange(4, 8) =~= u32_bytes(bl));
    lemma_u32_bytes_injective(ah, bh);
    lemma_u32_bytes_injective(al, bl);
}

/// The tag byte of an entry.
pub open spec fn tag_of(e: EntryModel) -> u8 {
    match e {
        EntryModel::UTF8(_) => TAG_UTF8,
        EntryModel::Int(_) => TAG_INT,
        EntryModel::Float(_) => TAG_FLOAT,
        EntryModel::Long(_) => TAG_LONG,
        EntryModel::Double(_) => TAG_DOUBLE,
        EntryModel::Class(_) => TAG_CLASS,
        EntryModel::String(_) => TAG_STRING,
        EntryModel::Field(_, _) => TAG_FIELD,
        EntryModel::Method(_, _) => TAG_METHOD,
        EntryModel::InterfaceMethod(_, _) => TAG_INTERFACE_METHOD,
        EntryModel::NameAndType(_, _) => TAG_NAME_AND_TYPE,
        EntryModel::MethodHandle(_, _) => TAG_METHOD_HANDLE,
        EntryModel::MethodType(_) => TAG_METHOD_TYPE,
        EntryModel::Dynamic(_, _) => TAG_DYNAMIC,
        EntryModel::InvokeDynamic(_, _) => TAG_INVOKE_DYNAMIC,
        EntryModel::Module(_) => TAG_MODULE,
        EntryModel::Package(_) => TAG_PACKAGE,
    }
}

proof fn lemma_tag(e: EntryModel)
    ensures
        entry_bytes(e).len() >= 3,
        entry_bytes(e)[0] == tag_of(e),
{
}

/// Bytes `a..b` of two sequences that agree up to `n`.
proof fn lemma_agree(x: Seq<u8>, y: Seq<u8>, n: int, a: int, b: int)
    requires
        0 <= a <= b <= n <= x.len(),
        n <= y.len(),
        forall|i: int| 0 <= i < n ==> x[i] == y[i],
    ensures
        x.subrange(a, b) == y.subrange(a, b),
{
    assert(x.subrange(a, b) =~= y.subrange(a, b));
}

proof fn lemma_same_payload(x: EntryModel, e: EntryModel)
    requires
        tag_of(x) == tag_of(e),
        entry_writable(x),
        entry_writable(e),
        forall|i: int|
            0 <= i < entry_bytes(x).len() && i < entry_bytes(e).len() ==> entry_bytes(x)[i]
                == entry_bytes(e)[i],
    ensures
        x == e,
{
    let ex = entry_bytes(x);
    let ee = entry_bytes(e);
    let n = if ex.len() < ee.len() {
        ex.len() as int
    } else {
        ee.len() as int
    };
    lemma_tag(x);
    lemma_tag(e);
    match x {
        EntryModel::UTF8(a) => {
            let b = e->UTF8_0;
            lemma_agree(ex, ee, n, 1, 3);
            assert(ex.subrange(1, 3) =~= u16_bytes(a.len() as u16));
            assert(ee.subrange(1, 3) =~= u16_bytes(b.len() as u16));
            lemma_u16_bytes_injective(a.len() as u16, b.len() as u16);
            lemma_agree(ex, ee, n, 3, n);
            assert(ex.subrange(3, n) =~= a);
            assert(ee.subrange(3, n) =~= b);
        },
        EntryModel::Int(a) => {
            let b = e->Int_0;
            lemma_agree(ex, ee, n, 1, 5);
            assert(ex.subrange(1, 5) =~= u32_bytes(a as u32));
            assert(ee.subrange(1, 5) =~= u32_bytes(b as u32));
            lemma_u32_bytes_injective(a as u32, b as u32);
            assert(a == b) by (bit_vector)
                requires
                    a as u32 == b as u32,
            ;
        },
        EntryModel::Float(a) => {
            let b = e->Float_0;
            lemma_agree(ex, ee, n, 1, 5);
            assert(ex.subrange(1, 5) =~= u32_bytes(a));
            assert(ee.subrange(1, 5) =~= u32_bytes(b));
            lemma_u32_bytes_injective(a, b);
        },
        EntryModel::Long(a) => {
            let b = e->Long_0;
            lemma_agree(ex, ee, n, 1, 9);
            assert(ex.subrange(1, 9) =~= u64_bytes(a as u64));
            assert(ee.subrange(1, 9) =~= u64_bytes(b as u64));
            lemma_u64_bytes_injective(a as u64, b as u64);
            assert(a == b) by (bit_vector)
                requires
                    a as u64 == b as u64,
            ;
        },
        EntryModel::Double(a) => {
            let b = e->Double_0;
            lemma_agree(ex, ee, n, 1, 9);
            assert(ex.subrange(1, 9) =~= u64_bytes(a));
            assert(ee.subrange(1, 9) =~= u64_bytes(b));
            lemma_u64_bytes_injective(a, b);
        },
        EntryModel::MethodHandle(k, a) => {
            let (l, b) = (e->MethodHandle_0, e->MethodHandle_1);
            lemma_agree(ex, ee, n, 2, 4);
            assert(ex[1] == ee[1]);
            assert(ex.subrange(2, 4) =~= u16_bytes(a));
            assert(ee.subrange(2, 4) =~= u16_bytes(b));
            lemma_u16_bytes_injective(a, b);
        },
        EntryModel::Class(_) | EntryModel::String(_) | EntryModel::MethodType(_)
        | EntryModel::Module(_) | EntryModel::Package(_) => {
            lemma_agree(ex, ee, n, 1, 3);
            let a = match x {
                EntryModel::Class(a) | EntryModel::String(a) | EntryModel::MethodType(a)
                | EntryModel::Module(a) | EntryModel::Package(a) => a,
                _ => 0,
            };
            let b = match e {
                EntryModel::Class(a) | EntryModel::String(a) | EntryModel::MethodType(a)
                | EntryModel::Module(a) | EntryModel::Package(a) => a,
                _ => 0,
            };
            assert(ex.subrange(1, 3) =~= u16_bytes(a));
            assert(ee.subrange(1, 3) =~= u16_bytes(b));
            lemma_u16_bytes_injective(a, b);
        },
        _ => {
            lemma_agree(ex, ee, n, 1, 3);
            lemma_agree(ex, ee, n, 3, 5);
            let (a, c) = match x {
                EntryModel::Field(a, c) | EntryModel::Method(a, c)
                | EntryModel::InterfaceMethod(a, c) | EntryModel::NameAndType(a, c)
                | EntryModel::Dynamic(a, c) | EntryModel::InvokeDynamic(a, c) => (a, c),
                _ => (0, 0),
            };
            let (b, d) = match e {
                EntryModel::Field(a, c) | EntryModel::Method(a, c)
                | EntryModel::InterfaceMethod(a, c) | EntryModel::NameAndType(a, c)
                | EntryModel::Dynamic(a, c) | EntryModel::InvokeDynamic(a, c) => (a, c),
                _ => (0, 0),
            };
            assert(ex.subrange(1, 3) =~= u16_bytes(a));
            assert(ee.subrange(1, 3) =~= u16_bytes(b));
            assert(ex.subrange(3, 5) =~= u16_bytes(c));
            assert(ee.subrange(3, 5) =~= u16_bytes(d));
            lemma_u16_bytes_injective(a, b);
            lemma_u16_bytes_injective(c, d);
        },
    }
}

/// Decoding gives back the entry that was encoded: the encoding of an entry
/// `x` that [`RawConstantEntry::read_from`] can return is a prefix of the
/// encoding of `e` followed by anything only when `x` is `e`. With the
/// contract of `read_from`, reading what `write_to` wrote yields the entry.
pub proof fn lemma_entry_round_trip(e: EntryModel, x: EntryModel, rest: Seq<u8>)
    requires
        entry_writable(e),
        entry_writable(x),
        entry_bytes(x).len() <= entry_bytes(e).len() + rest.len(),
        (entry_bytes(e) + rest).subrange(0, entry_bytes(x).len() as int) == entry_bytes(x),
    ensures
        x == e,
{
    let t = entry_bytes(e) + rest;
    let ex = entry_bytes(x);
    let ee = entry_bytes(e);
    assert forall|i: int| 0 <= i < ex.len() && i < ee.len() implies ex[i] == ee[i] by {
        assert(t.subrange(0, ex.len() as int)[i] == t[i]);
    }
    lemma_tag(x);
    lemma_tag(e);
    lemma_same_payload(x, e);
}

proof fn lemma_entries_bytes_front(es: Seq<EntryModel>)
    requires
        es.len() > 0,
    ensures
        entries_bytes(es) == entry_bytes(es[0]) + entries_bytes(es.drop_first()),
        slots(es) == es[0].size() + slots(es.drop_first()),
    decreases es.len(),
{
    if es.len() > 1 {
        let t = es.drop_last();
        lemma_entries_bytes_front(t);
        assert(t.drop_first() =~= es.drop_first().drop_last());
        assert(t[0] == es[0]);
        assert(es.drop_first().last() == es.last());
        assert(entries_bytes(es) =~= entry_bytes(es[0]) + entries_bytes(es.drop_first()));
    } else {
        assert(es.drop_first() =~= Seq::<EntryModel>::empty());
        assert(es.drop_last() =~= Seq::<EntryModel>::empty());
        assert(es.last() == es[0]);
        assert(entries_bytes(es.drop_last()) == Seq::<u8>::empty());
        assert(entries_bytes(es) =~= entry_bytes(es[0]));
    }
}

proof fn lemma_entries_bytes_len(es: Seq<EntryModel>)
    ensures
        entries_bytes(es).len() >= es.len(),
    decreases es.len(),
{
    if es.len() > 0 {
        lemma_entries_bytes_len(es.drop_last());
    }
}

/// Decoding entries while fewer than `count - 1` slots are taken, from the
/// encodings of `es` (which take exactly that many), gives back `es`.
proof fn lemma_entries_round_trip(es: Seq<EntryModel>, fs: Seq<EntryModel>, budget: int, rest: Seq<u8>)
    requires
        all_writable(es),
        all_writable(fs),
        budget == slots(es),
        entries_bytes(fs).len() <= entries_bytes(es).len() + rest.len(),
        (entries_bytes(es) + rest).subrange(0, entries_bytes(fs).len() as int) == entries_bytes(fs),
        slots(fs) >= budget,
        fs.len() == 0 || slots(fs.drop_last()) < budget,
    ensures
        fs == es,
    decreases es.len(),
{
    if es.len() == 0 {
        if fs.len() > 0 {
            lemma_entries_bytes_front(fs);
            assert(false);
        }
        assert(fs =~= es);
    } else {
        if fs.len() == 0 {
            lemma_entries_bytes_front(es);
            assert(false);
        }
        lemma_entries_bytes_front(es);
        lemma_entries_bytes_front(fs);
        let t = entries_bytes(es) + rest;
        let tail_e = entries_bytes(es.drop_first()) + rest;
        assert(t =~= entry_bytes(es[0]) + tail_e);
        let nf = entry_bytes(fs[0]).len() as int;
        assert(t.subrange(0, nf) == entry_bytes(fs[0])) by {
            assert(t.subrange(0, nf) =~= entries_bytes(fs).subrange(0, nf));
            assert(entries_bytes(fs).subrange(0, nf) =~= entry_bytes(fs[0]));
        }
        assert(entry_writable(es[0]));
        assert(entry_writable(fs[0]));
        lemma_entry_round_trip(es[0], fs[0], tail_e);
        let n0 = entry_bytes(es[0]).len() as int;
        let ef = es.drop_first();
        let ff = fs.drop_first();
        assert(all_writable(ef)) by {
            assert forall|i: int| 0 <= i < ef.len() implies entry_writable(#[trigger] ef[i]) by {
                assert(ef[i] == es[i + 1]);
            }
        }
        assert(all_writable(ff)) by {
            assert forall|i: int| 0 <= i < ff.len() implies entry_writable(#[trigger] ff[i]) by {
                assert(ff[i] == fs[i + 1]);
            }
        }
        assert(tail_e.subrange(0, entries_bytes(ff).len() as int) == entries_bytes(ff)) by {
            assert(tail_e.subrange(0, entries_bytes(ff).len() as int) =~= t.subrange(
                n0,
                n0 + entries_bytes(ff).len(),
            ));
            assert(entries_bytes(fs) =~= entry_bytes(fs[0]) + entries_bytes(ff));
            assert(t.subrange(n0, n0 + entries_bytes(ff).len()) =~= entries_bytes(fs).subrange(
                n0,
                n0 + entries_bytes(ff).len(),
            ));
        }
        if ff.len() > 0 {
            assert(fs.drop_last().drop_first() =~= ff.drop_last());
            lemma_entries_bytes_front(fs.drop_last());
            assert(fs.drop_last()[0] == fs[0]);
        }
        lemma_entries_round_trip(ef, ff, budget - es[0].size(), rest);
        assert(fs =~= es) by {
            assert(fs =~= seq![fs[0]] + ff);
            assert(es =~= seq![es[0]] + ef);
        }
    }
}

/// A pool written by [`VecCp::write_to`] reads back, through
/// [`MapCp::read_from`], as the same entries at the same indices: if
/// reading the bytes of the pool `es` (followed by anything) decodes a
/// count and entries `fs` as `read_from` describes, then `fs` is `es`.
pub proof fn lemma_pool_round_trip(
    es: Seq<EntryModel>,
    count: u16,
    fs: Seq<EntryModel>,
    rest: Seq<u8>,
)
    requires
        all_writable(es),
        all_writable(fs),
        1 + slots(es) <= 0xFFFF,
        entries_bytes(fs).len() <= entries_bytes(es).len() + rest.len(),
        u16_bytes(count) + entries_bytes(fs) == (u16_bytes((1 + slots(es)) as u16) + entries_bytes(
            es,
        ) + rest).subrange(0, (2 + entries_bytes(fs).len()) as int),
        1 + slots(fs) >= count,
        fs.len() == 0 || 1 + slots(fs.drop_last()) < count,
    ensures
        fs == es,
        pool_map(fs) == pool_map(es),
{
    let c = (1 + slots(es)) as u16;
    let t = entries_bytes(es) + rest;
    let w = u16_bytes(c) + t;
    let n = entries_bytes(fs).len() as int;
    let lhs = u16_bytes(count) + entries_bytes(fs);
    let w2 = w.subrange(0, 2 + n);
    assert(w =~= u16_bytes(c) + entries_bytes(es) + rest);
    assert(lhs == w2);
    assert(u16_bytes(count) =~= lhs.subrange(0, 2));
    assert(u16_bytes(c) =~= w2.subrange(0, 2));
    lemma_u16_bytes_injective(count, c);
    assert(t.subrange(0, n) =~= w2.subrange(2, 2 + n));
    assert(entries_bytes(fs) =~= lhs.subrange(2, 2 + n));
    lemma_entries_round_trip(es, fs, slots(es) as int, rest);
}

proof fn lemma_entries_decodable(es: Seq<EntryModel>, rest: Seq<u8>, i: int)
    requires
        all_writable(es),
    ensures
        entries_decodable(entries_bytes(es) + rest, i, i + slots(es)),
    decreases es.len(),
{
    let t = entries_bytes(es) + rest;
    if es.len() > 0 {
        lemma_entries_bytes_front(es);
        let e = es[0];
        let tail = es.drop_first();
        assert(all_writable(tail)) by {
            assert forall|k: int| 0 <= k < tail.len() implies entry_writable(#[trigger] tail[k]) by {
                assert(tail[k] == es[k + 1]);
            }
        }
        assert(entry_writable(e));
        let b = entry_bytes(e);
        assert(t =~= b + (entries_bytes(tail) + rest));
        assert(t.subrange(0, b.len() as int) =~= b);
        lemma_entry_decodable(e, t);
        lemma_tag(e);
        assert(t[0] == b[0]);
        assert(t.subrange(entry_size_at(t), t.len() as int) =~= entries_bytes(tail) + rest);
        lemma_entries_decodable(tail, rest, i + e.size());
    }
}

/// A pool written by [`VecCp::write_to`], followed by anything, is one that
/// [`MapCp::read_from`] reads successfully.
pub proof fn lemma_pool_decodable(es: Seq<EntryModel>, rest: Seq<u8>)
    requires
        all_writable(es),
        1 + slots(es) <= 0xFFFF,
    ensures
        pool_decodable(u16_bytes((1 + slots(es)) as u16) + entries_bytes(es) + rest),
{
    let c = (1 + slots(es)) as u16;
    let s = u16_bytes(c) + entries_bytes(es) + rest;
    lemma_entries_decodable(es, rest, 1);
    lemma_be16_bytes(s[0], s[1]);
    assert(seq![s[0], s[1]] =~= u16_bytes(c));
    lemma_u16_bytes_injective(be16(s[0], s[1]) as u16, c);
    assert(s.subrange(2, s.len() as int) =~= entries_bytes(es) + rest);
}

proof fn lemma_slots_prefix(es: Seq<EntryModel>, i: int)
    requires
        0 <= i < es.len(),
    ensures
        slots(es.subrange(0, i)) + es[i].size() <= slots(es),
    decreases es.len(),
{
    if i < es.len() - 1 {
        lemma_slots_prefix(es.drop_last(), i);
        assert(es.drop_last().subrange(0, i) =~= es.subrange(0, i));
    } else {
        assert(es.drop_last() =~= es.subrange(0, i));
    }
}

/// In the pool read back from a run of entries, each entry stands at one
/// more than the slots taken before it: the index [`VecCp::insert_raw`]
/// gave it.
pub proof fn lemma_pool_map_at(es: Seq<EntryModel>, i: int)
    requires
        0 <= i < es.len(),
        1 + slots(es) <= 0xFFFF,
    ensures
        pool_map(es).contains_key((1 + slots(es.subrange(0, i))) as u16),
        pool_map(es)[(1 + slots(es.subrange(0, i))) as u16] == es[i],
    decreases es.len(),
{
    let d = es.drop_last();
    lemma_slots_prefix(es, i);
    if i == es.len() - 1 {
        assert(d =~= es.subrange(0, i));
    } else {
        lemma_slots_prefix(d, i);
        assert(d.subrange(0, i) =~= es.subrange(0, i));
        assert(slots(es) == slots(d) + es.last().size());
        lemma_pool_map_at(d, i);
        assert(d[i] == es[i]);
    }
}

} // verus!
