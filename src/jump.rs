//! Encoding of jumps once their positions and widths are known.
use vstd::prelude::*;
use crate::bytes::{from_i32, i16_bytes, push_u16, push_u32, u32_bytes, Error};
use crate::insn::{
    cond_opcode, negate, JumpCondition, Label, GOTO_W, JSR, JSR_W, LOOKUPSWITCH, TABLESWITCH,
};
use crate::layout::{fits16, pad, MAX_CODE};

verus! {

/// The four bytes of a signed 32-bit value.
pub open spec fn i32_bytes(v: int) -> Seq<u8> {
    u32_bytes((if v < 0 {
        v + 0x1_0000_0000
    } else {
        v
    }) as u32)
}

/// A branch with offset `off` from its opcode. The wide form of a
/// conditional branch is the inverted branch over a `goto_w`, whose own
/// offset counts from three bytes further on.
pub open spec fn branch_bytes(c: JumpCondition, wide: bool, off: int) -> Seq<u8> {
    if !wide {
        seq![cond_opcode(c)] + i16_bytes(off)
    } else if c == JumpCondition::Always {
        seq![GOTO_W] + i32_bytes(off)
    } else {
        seq![cond_opcode(negate(c))] + i16_bytes(8) + seq![GOTO_W] + i32_bytes(off - 3)
    }
}

pub open spec fn jsr_bytes(wide: bool, off: int) -> Seq<u8> {
    if !wide {
        seq![JSR] + i16_bytes(off)
    } else {
        seq![JSR_W] + i32_bytes(off)
    }
}

/// `n` zero bytes.
pub open spec fn zeros(n: int) -> Seq<u8> {
    Seq::new(n as nat, |i: int| 0u8)
}

/// The offsets of a run of targets from `pos`, each as four bytes.
pub open spec fn offsets_bytes(ts: Seq<int>, pos: int) -> Seq<u8>
    decreases ts.len(),
{
    if ts.len() == 0 {
        Seq::empty()
    } else {
        offsets_bytes(ts.drop_last(), pos) + i32_bytes(ts.last() - pos)
    }
}

/// Key and offset pairs of a lookup table, each value as four bytes.
pub open spec fn pairs_bytes(ps: Seq<(i32, int)>, pos: int) -> Seq<u8>
    decreases ps.len(),
{
    if ps.len() == 0 {
        Seq::empty()
    } else {
        pairs_bytes(ps.drop_last(), pos) + i32_bytes(ps.last().0 as int) + i32_bytes(
            ps.last().1 - pos,
        )
    }
}

pub open spec fn tableswitch_bytes(pos: int, def: int, low: i32, ts: Seq<int>) -> Seq<u8> {
    seq![TABLESWITCH] + zeros(pad(pos)) + i32_bytes(def - pos) + i32_bytes(low as int) + i32_bytes(
        low + ts.len() - 1,
    ) + offsets_bytes(ts, pos)
}

pub open spec fn lookupswitch_bytes(pos: int, def: int, ps: Seq<(i32, int)>) -> Seq<u8> {
    seq![LOOKUPSWITCH] + zeros(pad(pos)) + i32_bytes(def - pos) + i32_bytes(ps.len() as int)
        + pairs_bytes(ps, pos)
}

/// Appends a signed 16-bit value.
pub fn push_i16(out: &mut Vec<u8>, v: i32)
    requires
        fits16(v as int),
    ensures
        final(out)@ == old(out)@ + i16_bytes(v as int),
{
    let u: u16 = if v < 0 {
        (v + 0x1_0000) as u16
    } else {
        v as u16
    };
    push_u16(out, u);
}

/// Appends a signed 32-bit value.
pub fn push_i32(out: &mut Vec<u8>, v: i32)
    ensures
        final(out)@ == old(out)@ + i32_bytes(v as int),
{
    let u = from_i32(v);
    assert((if v < 0 {
        v + 0x1_0000_0000
    } else {
        v as int
    }) == u as int);
    push_u32(out, u);
}

/// Appends a branch; a narrow one must reach its target.
pub fn write_branch(c: JumpCondition, wide: bool, off: i32, out: &mut Vec<u8>)
    requires
        !wide ==> fits16(off as int),
        wide && c != JumpCondition::Always ==> off >= i32::MIN + 3,
    ensures
        final(out)@ == old(out)@ + branch_bytes(c, wide, off as int),
{
    let ghost o = out@;
    if !wide {
        out.push(c.opcode());
        push_i16(out, off);
    } else if c == JumpCondition::Always {
        out.push(GOTO_W);
        push_i32(out, off);
    } else {
        out.push(c.negated().opcode());
        push_i16(out, 8);
        out.push(GOTO_W);
        push_i32(out, off - 3);
    }
    assert(out@ =~= o + branch_bytes(c, wide, off as int));
}

/// Appends a `jsr`; a narrow one must reach its target.
pub fn write_jsr(wide: bool, off: i32, out: &mut Vec<u8>)
    requires
        !wide ==> fits16(off as int),
    ensures
        final(out)@ == old(out)@ + jsr_bytes(wide, off as int),
{
    let ghost o = out@;
    if !wide {
        out.push(JSR);
        push_i16(out, off);
    } else {
        out.push(JSR_W);
        push_i32(out, off);
    }
    assert(out@ =~= o + jsr_bytes(wide, off as int));
}

/// Appends `n` zero bytes.
pub fn push_zeros(out: &mut Vec<u8>, n: u32)
    ensures
        final(out)@ == old(out)@ + zeros(n as int),
{
    let ghost o = out@;
    let mut i: u32 = 0;
    while i < n
        invariant
            i <= n,
            out@ == o + zeros(i as int),
        decreases n - i,
    {
        out.push(0);
        i = i + 1;
        assert(out@ =~= o + zeros(i as int));
    }
}

/// Whether the keys of a lookup table strictly increase.
pub open spec fn keys_increasing(t: Seq<(i32, Label)>) -> bool {
    forall|i: int, j: int| 0 <= i < j < t.len() ==> t[i].0 < t[j].0
}

/// Sorts a lookup table by key, as a `lookupswitch` must list it. Fails
/// when a key repeats.
pub fn sorted_table(table: &Vec<(i32, Label)>) -> (r: Result<Vec<(i32, Label)>, Error>)
    ensures
        r is Ok <==> forall|i: int, j: int|
            0 <= i < j < table@.len() ==> table@[i].0 != table@[j].0,
        r is Ok ==> keys_increasing(r->Ok_0@) && r->Ok_0@.len() == table@.len() && (forall|
            p: (i32, Label),
        | r->Ok_0@.contains(p) <==> table@.contains(p)),
        r is Err ==> r == Err::<Vec<(i32, Label)>, Error>(Error::Invalid("lookupswitch key")),
{
    let mut out: Vec<(i32, Label)> = Vec::new();
    let mut i: usize = 0;
    while i < table.len()
        invariant
            i <= table@.len(),
            keys_increasing(out@),
            out@.len() == i,
            forall|p: (i32, Label)| out@.contains(p) <==> table@.subrange(0, i as int).contains(p),
            forall|a: int, b: int| 0 <= a < b < i ==> table@[a].0 != table@[b].0,
        decreases table@.len() - i,
    {
        let (k, l) = table[i];
        let mut at: usize = 0;
        while at < out.len() && out[at].0 < k
            invariant
                at <= out@.len(),
                forall|m: int| 0 <= m < at ==> out@[m].0 < k,
            decreases out@.len() - at,
        {
            at = at + 1;
        }
        if at < out.len() && out[at].0 == k {
            proof {
                let p = out@[at as int];
                assert(out@.contains(p));
                assert(table@.subrange(0, i as int).contains(p));
                let m = choose|m: int| 0 <= m < i && table@.subrange(0, i as int)[m] == p;
                assert(table@[m].0 == table@[i as int].0);
            }
            return Err(Error::Invalid("lookupswitch key"));
        }
        let ghost before = out@;
        out.insert(at, (k, l));
        proof {
            assert(out@ == before.insert(at as int, (k, l)));
            assert forall|a: int, b: int| 0 <= a < b < out@.len() implies out@[a].0 < out@[b].0 by {
                if b < at {
                } else if b == at {
                } else if a < at {
                } else if a == at {
                    assert(out@[b] == before[b - 1]);
                } else {
                }
            }
            assert forall|p: (i32, Label)| out@.contains(p) <==> table@.subrange(
                0,
                i + 1,
            ).contains(p) by {
                let t1 = table@.subrange(0, i + 1);
                assert(t1 =~= table@.subrange(0, i as int).push((k, l)));
                if out@.contains(p) {
                    let m = choose|m: int| 0 <= m < out@.len() && out@[m] == p;
                    if m != at {
                        let q = if m < at {
                            m
                        } else {
                            m - 1
                        };
                        assert(before[q] == p);
                        assert(before.contains(p));
                        assert(table@.subrange(0, i as int).contains(p));
                        let z = choose|z: int|
                            0 <= z < i && table@.subrange(0, i as int)[z] == p;
                        assert(t1[z] == p);
                    } else {
                        assert(t1[i as int] == p);
                    }
                }
                if t1.contains(p) {
                    let m = choose|m: int| 0 <= m < t1.len() && t1[m] == p;
                    if m == i {
                        assert(out@[at as int] == p);
                    } else {
                        assert(table@.subrange(0, i as int)[m] == p);
                        assert(before.contains(p));
                        let q = choose|q: int| 0 <= q < before.len() && before[q] == p;
                        if q < at {
                            assert(out@[q] == p);
                        } else {
                            assert(out@[q + 1] == p);
                        }
                    }
                }
            }
            assert forall|a: int, b: int| 0 <= a < b < i + 1 implies table@[a].0 != table@[b].0 by {
                if b == i {
                    let p = table@[a];
                    assert(table@.subrange(0, i as int)[a] == p);
                    assert(before.contains(p));
                    let q = choose|q: int| 0 <= q < before.len() && before[q] == p;
                    if q < at {
                    } else {
                        assert(before[q].0 != k);
                    }
                }
            }
        }
        i = i + 1;
    }
    assert(table@.subrange(0, i as int) =~= table@);
    Ok(out)
}

/// Positions as integers.
pub open spec fn as_ints(ts: Seq<u32>) -> Seq<int> {
    ts.map_values(|t: u32| t as int)
}

/// Pairs of key and position, the position as an integer.
pub open spec fn pairs_as_ints(ps: Seq<(i32, u32)>) -> Seq<(i32, int)> {
    ps.map_values(|p: (i32, u32)| (p.0, p.1 as int))
}

/// Appends the padding that aligns a switch's operands, for an opcode at `pos`.
fn push_pad(out: &mut Vec<u8>, pos: u32)
    ensures
        final(out)@ == old(out)@ + zeros(pad(pos as int)),
{
    push_zeros(out, 3 - pos % 4);
}

/// Appends a `tableswitch` whose opcode is at `pos`, with its default and
/// its targets at the given positions.
pub fn write_tableswitch(pos: u32, def: u32, low: i32, ts: &Vec<u32>, out: &mut Vec<u8>)
    requires
        pos <= MAX_CODE,
        def <= MAX_CODE,
        forall|i: int| 0 <= i < ts@.len() ==> ts@[i] <= MAX_CODE,
        1 <= ts@.len(),
        low + ts@.len() - 1 <= i32::MAX,
    ensures
        final(out)@ == old(out)@ + tableswitch_bytes(pos as int, def as int, low, as_ints(ts@)),
{
    let ghost o = out@;
    out.push(TABLESWITCH);
    push_pad(out, pos);
    push_i32(out, (def as i64 - pos as i64) as i32);
    push_i32(out, low);
    push_i32(out, (low as i64 + ts.len() as i64 - 1) as i32);
    let ghost head = out@;
    let mut i: usize = 0;
    while i < ts.len()
        invariant
            pos <= MAX_CODE,
            forall|k: int| 0 <= k < ts@.len() ==> ts@[k] <= MAX_CODE,
            i <= ts@.len(),
            out@ == head + offsets_bytes(as_ints(ts@).subrange(0, i as int), pos as int),
        decreases ts@.len() - i,
    {
        push_i32(out, (ts[i] as i64 - pos as i64) as i32);
        proof {
            let a = as_ints(ts@).subrange(0, i + 1);
            assert(a.drop_last() =~= as_ints(ts@).subrange(0, i as int));
        }
        i = i + 1;
    }
    assert(as_ints(ts@).subrange(0, i as int) =~= as_ints(ts@));
    assert(as_ints(ts@).len() == ts@.len());
    assert(out@ =~= o + tableswitch_bytes(pos as int, def as int, low, as_ints(ts@)));
}

/// Appends a `lookupswitch` whose opcode is at `pos`, with its default at
/// `def` and its pairs of key and target position in the order given.
pub fn write_lookupswitch(pos: u32, def: u32, ps: &Vec<(i32, u32)>, out: &mut Vec<u8>)
    requires
        pos <= MAX_CODE,
        def <= MAX_CODE,
        forall|i: int| 0 <= i < ps@.len() ==> ps@[i].1 <= MAX_CODE,
        ps@.len() <= i32::MAX,
    ensures
        final(out)@ == old(out)@ + lookupswitch_bytes(pos as int, def as int, pairs_as_ints(ps@)),
{
    let ghost o = out@;
    out.push(LOOKUPSWITCH);
    push_pad(out, pos);
    push_i32(out, (def as i64 - pos as i64) as i32);
    push_i32(out, ps.len() as i32);
    let ghost head = out@;
    let mut i: usize = 0;
    while i < ps.len()
        invariant
            pos <= MAX_CODE,
            forall|k: int| 0 <= k < ps@.len() ==> ps@[k].1 <= MAX_CODE,
            i <= ps@.len(),
            out@ == head + pairs_bytes(pairs_as_ints(ps@).subrange(0, i as int), pos as int),
        decreases ps@.len() - i,
    {
        let (k, t) = ps[i];
        push_i32(out, k);
        push_i32(out, (t as i64 - pos as i64) as i32);
        proof {
            let a = pairs_as_ints(ps@).subrange(0, i + 1);
            assert(a.drop_last() =~= pairs_as_ints(ps@).subrange(0, i as int));
        }
        i = i + 1;
    }
    assert(pairs_as_ints(ps@).subrange(0, i as int) =~= pairs_as_ints(ps@));
    assert(out@ =~= o + lookupswitch_bytes(pos as int, def as int, pairs_as_ints(ps@)));
}

pub proof fn lemma_offsets_len(ts: Seq<int>, pos: int)
    ensures
        offsets_bytes(ts, pos).len() == 4 * ts.len(),
    decreases ts.len(),
{
    if ts.len() > 0 {
        lemma_offsets_len(ts.drop_last(), pos);
    }
}

pub proof fn lemma_pairs_len(ps: Seq<(i32, int)>, pos: int)
    ensures
        pairs_bytes(ps, pos).len() == 8 * ps.len(),
    decreases ps.len(),
{
    if ps.len() > 0 {
        lemma_pairs_len(ps.drop_last(), pos);
    }
}

/// The default offset of a switch whose opcode is at `pos` starts on a
/// multiple of four: it follows the opcode and `pad(pos)` zero bytes.
pub proof fn lemma_switch_operands_aligned(pos: int)
    requires
        0 <= pos,
    ensures
        0 <= pad(pos) <= 3,
        (pos + 1 + pad(pos)) % 4 == 0,
        tableswitch_bytes(pos, 0, 0, seq![0int]).subrange(1, 1 + pad(pos)) == zeros(pad(pos)),
{
    let t = tableswitch_bytes(pos, 0, 0, seq![0int]);
    assert(t.subrange(1, 1 + pad(pos)) =~= zeros(pad(pos)));
}

} // verus!
