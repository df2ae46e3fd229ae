//! Modified UTF-8, the string encoding of class files: NUL takes two bytes
//! and characters past the Basic Multilingual Plane are written as their two
//! UTF-16 surrogates, three bytes each.
use vstd::prelude::*;
use vstd::string::StrSliceExecFns;

verus! {

/// The three-byte form of a code unit up to 0xFFFF.
pub open spec fn three_bytes(v: int) -> Seq<u8> {
    seq![(0xE0 + v / 4096) as u8, (0x80 + (v / 64) % 64) as u8, (0x80 + v % 64) as u8]
}

/// The modified UTF-8 bytes of one character.
pub open spec fn char_bytes(c: char) -> Seq<u8> {
    let v = c as int;
    if 1 <= v <= 0x7F {
        seq![v as u8]
    } else if v <= 0x7FF {
        seq![(0xC0 + v / 64) as u8, (0x80 + v % 64) as u8]
    } else if v <= 0xFFFF {
        three_bytes(v)
    } else {
        let w = v - 0x10000;
        three_bytes(0xD800 + w / 1024) + three_bytes(0xDC00 + w % 1024)
    }
}

/// The modified UTF-8 bytes of a string.
pub open spec fn mutf8(s: Seq<char>) -> Seq<u8>
    decreases s.len(),
{
    if s.len() == 0 {
        Seq::empty()
    } else {
        mutf8(s.drop_last()) + char_bytes(s.last())
    }
}

fn push_three(out: &mut Vec<u8>, v: u32)
    requires
        v <= 0xFFFF,
    ensures
        final(out)@ == old(out)@ + three_bytes(v as int),
{
    out.push((0xE0 + v / 4096) as u8);
    out.push((0x80 + (v / 64) % 64) as u8);
    out.push((0x80 + v % 64) as u8);
    assert(final(out)@ =~= old(out)@ + three_bytes(v as int));
}

/// A string to be written in modified UTF-8.
#[derive(Clone, Debug, Copy)]
pub struct StrRef<'a>(pub &'a str);

impl<'a> StrRef<'a> {
    /// Appends the modified UTF-8 bytes of the string.
    pub fn write_to(&self, out: &mut Vec<u8>)
        ensures
            final(out)@ == old(out)@ + mutf8(self.0@),
    {
        let s = self.0;
        let n = s.unicode_len();
        let ghost o = out@;
        let mut i: usize = 0;
        while i < n
            invariant
                n == s@.len(),
                i <= n,
                out@ == o + mutf8(s@.subrange(0, i as int)),
            decreases n - i,
        {
            let c = s.get_char(i);
            let v = c as u32;
            let ghost before = out@;
            if 1 <= v && v <= 0x7F {
                out.push(v as u8);
            } else if v <= 0x7FF {
                out.push((0xC0 + v / 64) as u8);
                out.push((0x80 + v % 64) as u8);
            } else if v <= 0xFFFF {
                push_three(out, v);
            } else {
                let w = v - 0x10000;
                push_three(out, 0xD800 + w / 1024);
                push_three(out, 0xDC00 + w % 1024);
            }
            proof {
                assert(out@ =~= before + char_bytes(c));
                assert(s@.subrange(0, i + 1).drop_last() =~= s@.subrange(0, i as int));
            }
            i = i + 1;
        }
        assert(s@.subrange(0, n as int) =~= s@);
    }
}

} // verus!
