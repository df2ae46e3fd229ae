//! Stack-map frames in their compact class-file encoding.
use vstd::prelude::*;
use crate::bytes::{be16, push_u16, u16_bytes, ByteReader, Error};
use crate::code::{find_pos, lookup_pos};
use crate::cp::{EntryModel, MapCp, RawConstantEntry, VecCp};
use crate::disasm::{labels_grow, Labeler};
use crate::insn::{insert_checked, lemma_has_at_grows, pool_grows, pool_has_at, Label};

verus! {

/// The type of a local slot or stack entry in a frame.
#[derive(Debug, Clone, PartialEq, Eq)]
pub enum VerificationType {
    Top,
    Int,
    Float,
    Long,
    Double,
    Null,
    UninitializedThis,
    /// An instance of the class of this name, in modified UTF-8.
    Object(Vec<u8>),
    /// Following the label, must be a `NEW` instruction.
    UninitializedVariable(Label),
}

/// The bytes a type takes: its tag, then a pool index or an offset for
/// tags 7 and 8.
pub open spec fn vt_len(s: Seq<u8>) -> int {
    if s[0] >= 7 {
        3
    } else {
        1
    }
}

/// `s` starts with a type that can be read against the pool `model`: a tag
/// up to 8, with the bytes it calls for, and for an object the index of a
/// Class entry.
pub open spec fn vt_readable(s: Seq<u8>, model: Map<u16, EntryModel>) -> bool {
    &&& s.len() >= 1
    &&& s[0] <= 8
    &&& s.len() >= vt_len(s)
    &&& s[0] == 7 ==> class_name_at(model, be16(s[1], s[2]) as u16) is Some
}

/// The name of the Class entry at `idx`, if that is one naming a string.
pub open spec fn class_name_at(model: Map<u16, EntryModel>, idx: u16) -> Option<Seq<u8>> {
    if model.contains_key(idx) && model[idx] is Class && model.contains_key(model[idx]->Class_0)
        && model[model[idx]->Class_0] is UTF8 {
        Some(model[model[idx]->Class_0]->UTF8_0)
    } else {
        None
    }
}

/// The encoding of a type whose object class, if any, has pool index `idx`
/// and whose uninitialized value, if any, is at offset `pos`.
pub open spec fn vt_bytes(t: VerificationType, idx: u16, pos: u16) -> Seq<u8> {
    match t {
        VerificationType::Object(_) => seq![7u8] + u16_bytes(idx),
        VerificationType::UninitializedVariable(_) => seq![8u8] + u16_bytes(pos),
        _ => seq![t.tag()],
    }
}

/// `bytes` encode `t`: an object's class at its index in `cp`, an
/// uninitialized value's label at its position in `abs`.
pub open spec fn vt_written(bytes: Seq<u8>, t: VerificationType, abs: Seq<(u32, u32)>, cp: VecCp) -> bool {
    match t {
        VerificationType::Object(name) => exists|idx: u16, nidx: u16|
            pool_has_at(cp, EntryModel::UTF8(name@), nidx) && pool_has_at(cp, EntryModel::Class(nidx), idx)
                && bytes == vt_bytes(t, idx, 0),
        VerificationType::UninitializedVariable(l) => find_pos(abs, l.0) is Some && bytes == vt_bytes(
            t,
            0,
            find_pos(abs, l.0)->Some_0 as u16,
        ),
        _ => bytes == vt_bytes(t, 0, 0),
    }
}

/// A type can be written: an object's class fits the pool, an uninitialized
/// value's label has a position that fits two bytes.
pub open spec fn vt_writable(t: VerificationType, abs: Seq<(u32, u32)>, cp: VecCp) -> bool {
    match t {
        VerificationType::Object(name) => name@.len() <= 0xFFFF && cp.next_index() + 2 <= 0xFFFF,
        VerificationType::UninitializedVariable(l) => find_pos(abs, l.0) is Some && find_pos(
            abs,
            l.0,
        )->Some_0 <= 0xFFFF,
        _ => true,
    }
}

impl VerificationType {
    /// Long and Double take two slots.
    pub fn is_wide(&self) -> (r: bool)
        ensures
            r == (*self is Long || *self is Double),
    {
        matches!(self, VerificationType::Double | VerificationType::Long)
    }

    /// The tag byte of this type.
    pub open spec fn tag(&self) -> u8 {
        match self {
            VerificationType::Top => 0,
            VerificationType::Int => 1,
            VerificationType::Float => 2,
            VerificationType::Double => 3,
            VerificationType::Long => 4,
            VerificationType::Null => 5,
            VerificationType::UninitializedThis => 6,
            VerificationType::Object(_) => 7,
            VerificationType::UninitializedVariable(_) => 8,
        }
    }

    /// Reads a type; an object's class is looked up in the pool and an
    /// uninitialized value's offset becomes a label.
    pub fn read_from(cp: &MapCp, labels: &mut Labeler, r: &mut ByteReader) -> (res: Result<VerificationType, Error>)
        requires
            old(r).wf(),
            old(labels).wf(),
        ensures
            final(r).wf(),
            final(r).bytes@ == old(r).bytes@,
            final(labels).wf(),
            labels_grow(*old(labels), *final(labels)),
            res is Ok ==> old(r).pos < old(r).bytes@.len() && res->Ok_0.tag() == old(r).bytes@[old(r).pos as int],
            res is Ok && res->Ok_0 is UninitializedVariable ==> final(labels).offsets@[res->Ok_0->UninitializedVariable_0.0 as int] == be16(old(r).bytes@[old(r).pos + 1], old(r).bytes@[old(r).pos + 2]),
            res is Err ==> res->Err_0 is Invalid || res->Err_0 is Truncated,
            old(r).pos < old(r).bytes@.len() && old(r).bytes@[old(r).pos as int] > 8 ==> res is Err && res->Err_0 is Invalid,
            old(labels).offsets@.len() < u32::MAX ==> (res is Ok <==> vt_readable(old(r).rest(), cp.model())),
            res is Ok ==> final(r).pos == old(r).pos + vt_len(old(r).rest()),
            res is Ok && res->Ok_0 is Object ==> class_name_at(cp.model(), be16(
                old(r).bytes@[old(r).pos + 1],
                old(r).bytes@[old(r).pos + 2],
            ) as u16) == Some(res->Ok_0->Object_0@),
            final(labels).offsets@.len() <= old(labels).offsets@.len() + 1,
    {
        proof {
            crate::cp::lemma_rest_index(*r);
        }
        let tag = r.read_u8()?;
        match tag {
            0 => Ok(VerificationType::Top),
            1 => Ok(VerificationType::Int),
            2 => Ok(VerificationType::Float),
            3 => Ok(VerificationType::Double),
            4 => Ok(VerificationType::Long),
            5 => Ok(VerificationType::Null),
            6 => Ok(VerificationType::UninitializedThis),
            7 => {
                let idx = r.read_u16()?;
                match cp.read_raw(idx) {
                    Some(RawConstantEntry::Class(c)) => match cp.read_raw(c) {
                        Some(RawConstantEntry::UTF8(name)) => Ok(VerificationType::Object(name)),
                        _ => Err(Error::Invalid("verification type class")),
                    },
                    Some(_) => Err(Error::Invalid("verification type class")),
                    None => Err(Error::Invalid("constant pool index")),
                }
            },
            8 => {
                let off = r.read_u16()?;
                if labels.offsets.len() >= u32::MAX as usize {
                    return Err(Error::Invalid("too many labels"));
                }
                Ok(VerificationType::UninitializedVariable(labels.get_label(off as u32)))
            },
            _ => Err(Error::Invalid("verification type tag")),
        }
    }

    /// Writes a type; an object's class goes into the pool and an
    /// uninitialized value's label is resolved to its position.
    pub fn write_to(&self, cp: &mut VecCp, abs: &Vec<(u32, u32)>, out: &mut Vec<u8>) -> (r: Result<(), Error>)
        requires
            old(cp).wf(),
        ensures
            final(cp).wf(),
            pool_grows(*old(cp), *final(cp)),
            r is Ok ==> final(out)@.len() > old(out)@.len() && final(out)@[old(out)@.len() as int] == self.tag()
                && final(out)@.subrange(0, old(out)@.len() as int) == old(out)@,
            r is Ok && self is UninitializedVariable ==> final(out)@ == old(out)@ + seq![8u8] + u16_bytes(find_pos(abs@, self->UninitializedVariable_0.0)->Some_0 as u16),
            vt_writable(*self, abs@, *old(cp)) ==> r is Ok,
            !(*self is Object) ==> (r is Ok <==> vt_writable(*self, abs@, *old(cp))),
            r is Ok ==> final(out)@.len() >= old(out)@.len() && vt_written(
                final(out)@.subrange(old(out)@.len() as int, final(out)@.len() as int),
                *self,
                abs@,
                *final(cp),
            ),
            r is Err ==> r->Err_0 is Invalid && final(out)@ == old(out)@,
            old(cp).next_index() <= final(cp).next_index() <= old(cp).next_index() + 2,
    {
        let ghost o = out@;
        match self {
            VerificationType::Top => out.push(0),
            VerificationType::Int => out.push(1),
            VerificationType::Float => out.push(2),
            VerificationType::Double => out.push(3),
            VerificationType::Long => out.push(4),
            VerificationType::Null => out.push(5),
            VerificationType::UninitializedThis => out.push(6),
            VerificationType::Object(name) => {
                let ghost c0 = *cp;
                let n = crate::code::insert_utf8(name, cp)?;
                let ghost c1 = *cp;
                let idx = insert_checked(cp, &RawConstantEntry::Class(n))?;
                proof {
                    lemma_has_at_grows(c1, *cp, EntryModel::UTF8(name@), n);
                }
                out.push(7);
                push_u16(out, idx);
                assert(out@.subrange(o.len() as int, out@.len() as int) =~= vt_bytes(*self, idx, 0));
            },
            VerificationType::UninitializedVariable(l) => {
                let p = match lookup_pos(abs, *l) {
                    Some(p) => p,
                    None => return Err(Error::Invalid("referenced label")),
                };
                if p > 0xFFFF {
                    return Err(Error::Invalid("label offset"));
                }
                out.push(8);
                push_u16(out, p as u16);
                assert(out@ =~= o + seq![8u8] + u16_bytes(p as u16));
            },
        }
        assert(out@.subrange(0, o.len() as int) =~= o);
        assert(self is Object || self is UninitializedVariable || out@.subrange(o.len() as int, out@.len() as int) =~= vt_bytes(*self, 0, 0));
        assert(!(self is UninitializedVariable) || out@.subrange(o.len() as int, out@.len() as int) =~= vt_bytes(*self, 0, find_pos(abs@, self->UninitializedVariable_0.0)->Some_0 as u16));
        Ok(())
    }
}

/// A stack-map frame: the offset delta, then what the frame says.
#[derive(Debug, Clone, PartialEq, Eq)]
pub enum RawFrame {
    Same(u16),
    SameLocalsOneStack(u16, VerificationType),
    /// Chop up to three.
    Chop(u16, u8),
    /// At most three items.
    Append(u16, Vec<VerificationType>),
    /// Locals and then stack values.
    Full(u16, Vec<VerificationType>, Vec<VerificationType>),
}

/// The tag byte and the offset of a frame: small offsets of `Same` and
/// `SameLocalsOneStack` fold into the tag.
pub open spec fn frame_header(f: RawFrame) -> Seq<u8> {
    match f {
        RawFrame::Same(off) => if off <= 63 {
            seq![off as u8]
        } else {
            seq![251u8] + u16_bytes(off)
        },
        RawFrame::SameLocalsOneStack(off, _) => if off <= 63 {
            seq![(off + 64) as u8]
        } else {
            seq![247u8] + u16_bytes(off)
        },
        RawFrame::Chop(off, k) => seq![(251 - k) as u8] + u16_bytes(off),
        RawFrame::Append(off, ls) => seq![(251 + ls@.len()) as u8] + u16_bytes(off),
        RawFrame::Full(off, _, _) => seq![255u8] + u16_bytes(off),
    }
}

/// A frame that can be encoded: a chop of one to three, an append of at
/// most three, a full frame with counts that fit two bytes.
pub open spec fn frame_ok(f: RawFrame) -> bool {
    match f {
        RawFrame::Chop(_, k) => 1 <= k <= 3,
        RawFrame::Append(_, ls) => ls@.len() <= 3,
        RawFrame::Full(_, ls, st) => ls@.len() <= 0xFFFF && st@.len() <= 0xFFFF,
        _ => true,
    }
}

/// The bytes a type takes once written.
pub open spec fn vt_size(t: VerificationType) -> int {
    if t is Object || t is UninitializedVariable {
        3
    } else {
        1
    }
}

/// `t` can be written to a pool with room: an object's class can be
/// encoded, an uninitialized value's label has a two-byte position.
pub open spec fn vt_fits(t: VerificationType, abs: Seq<(u32, u32)>) -> bool {
    match t {
        VerificationType::Object(name) => name@.len() <= 0xFFFF,
        VerificationType::UninitializedVariable(l) => find_pos(abs, l.0) is Some && find_pos(
            abs,
            l.0,
        )->Some_0 <= 0xFFFF,
        _ => true,
    }
}

pub open spec fn types_fit(ts: Seq<VerificationType>, abs: Seq<(u32, u32)>) -> bool {
    forall|i: int| 0 <= i < ts.len() ==> vt_fits(#[trigger] ts[i], abs)
}

/// `bytes` encode the types `ts`, one after another.
pub open spec fn types_written(bytes: Seq<u8>, ts: Seq<VerificationType>, abs: Seq<(u32, u32)>, cp: VecCp) -> bool
    decreases ts.len(),
{
    if ts.len() == 0 {
        bytes.len() == 0
    } else {
        let k = bytes.len() - vt_size(ts.last());
        &&& k >= 0
        &&& types_written(bytes.subrange(0, k), ts.drop_last(), abs, cp)
        &&& vt_written(bytes.subrange(k, bytes.len() as int), ts.last(), abs, cp)
    }
}

proof fn lemma_vt_written_grows(bytes: Seq<u8>, t: VerificationType, abs: Seq<(u32, u32)>, a: VecCp, b: VecCp)
    requires
        pool_grows(a, b),
        vt_written(bytes, t, abs, a),
    ensures
        vt_written(bytes, t, abs, b),
{
    if let VerificationType::Object(name) = t {
        let (idx, nidx) = choose|idx: u16, nidx: u16|
            pool_has_at(a, EntryModel::UTF8(name@), nidx) && pool_has_at(a, EntryModel::Class(nidx), idx)
                && bytes == vt_bytes(t, idx, 0);
        lemma_has_at_grows(a, b, EntryModel::UTF8(name@), nidx);
        lemma_has_at_grows(a, b, EntryModel::Class(nidx), idx);
    }
}

proof fn lemma_types_written_grows(bytes: Seq<u8>, ts: Seq<VerificationType>, abs: Seq<(u32, u32)>, a: VecCp, b: VecCp)
    requires
        pool_grows(a, b),
        types_written(bytes, ts, abs, a),
    ensures
        types_written(bytes, ts, abs, b),
    decreases ts.len(),
{
    if ts.len() > 0 {
        let k = bytes.len() - vt_size(ts.last());
        lemma_types_written_grows(bytes.subrange(0, k), ts.drop_last(), abs, a, b);
        lemma_vt_written_grows(bytes.subrange(k, bytes.len() as int), ts.last(), abs, a, b);
    }
}

proof fn lemma_vt_written_len(bytes: Seq<u8>, t: VerificationType, abs: Seq<(u32, u32)>, cp: VecCp)
    requires
        vt_written(bytes, t, abs, cp),
    ensures
        bytes.len() == vt_size(t),
{
    if let VerificationType::Object(name) = t {
        let (idx, nidx) = choose|idx: u16, nidx: u16|
            pool_has_at(cp, EntryModel::UTF8(name@), nidx) && pool_has_at(cp, EntryModel::Class(nidx), idx)
                && bytes == vt_bytes(t, idx, 0);
    }
}

/// Writes types one after another.
fn write_types(ts: &Vec<VerificationType>, cp: &mut VecCp, abs: &Vec<(u32, u32)>, out: &mut Vec<u8>) -> (r: Result<(), Error>)
    requires
        old(cp).wf(),
    ensures
        final(cp).wf(),
        pool_grows(*old(cp), *final(cp)),
        r is Ok ==> final(out)@.len() >= old(out)@.len() && final(out)@.subrange(0, old(out)@.len() as int) == old(out)@
            && types_written(final(out)@.subrange(old(out)@.len() as int, final(out)@.len() as int), ts@, abs@, *final(cp)),
        types_fit(ts@, abs@) && old(cp).next_index() + 2 * ts@.len() <= 0xFFFF ==> r is Ok,
        final(cp).next_index() <= old(cp).next_index() + 2 * ts@.len(),
        r is Err ==> r->Err_0 is Invalid,
{
    let ghost o = out@;
    let mut i: usize = 0;
    while i < ts.len()
        invariant
            cp.wf(),
            pool_grows(*old(cp), *cp),
            out@.len() >= o.len(),
            out@.subrange(0, o.len() as int) == o,
            i <= ts@.len(),
            types_written(out@.subrange(o.len() as int, out@.len() as int), ts@.subrange(0, i as int), abs@, *cp),
            old(cp).next_index() <= cp.next_index() <= old(cp).next_index() + 2 * i,
        decreases ts@.len() - i,
    {
        let ghost before = out@;
        let ghost c0 = *cp;
        proof {
            if types_fit(ts@, abs@) && old(cp).next_index() + 2 * ts@.len() <= 0xFFFF {
                assert(vt_fits(ts@[i as int], abs@));
            }
        }
        ts[i].write_to(cp, abs, out)?;
        proof {
            assert(out@.subrange(0, o.len() as int) =~= before.subrange(0, o.len() as int));
            let w = out@.subrange(o.len() as int, out@.len() as int);
            let t = ts@.subrange(0, i + 1);
            assert(t.drop_last() =~= ts@.subrange(0, i as int));
            lemma_vt_written_len(out@.subrange(before.len() as int, out@.len() as int), ts@[i as int], abs@, *cp);
            let k = w.len() - vt_size(ts@[i as int]);
            assert(w.subrange(0, k) =~= before.subrange(o.len() as int, before.len() as int));
            assert(w.subrange(k, w.len() as int) =~= out@.subrange(before.len() as int, out@.len() as int));
            lemma_types_written_grows(w.subrange(0, k), ts@.subrange(0, i as int), abs@, c0, *cp);
        }
        i = i + 1;
    }
    assert(ts@.subrange(0, i as int) =~= ts@);
    Ok(())
}

/// `s` starts with `n` readable types.
pub open spec fn types_readable(s: Seq<u8>, n: nat, model: Map<u16, EntryModel>) -> bool
    decreases n,
{
    if n == 0 {
        true
    } else {
        vt_readable(s, model) && types_readable(s.subrange(vt_len(s), s.len() as int), (n - 1) as nat, model)
    }
}

/// The bytes `n` types take at the start of `s`.
pub open spec fn types_len(s: Seq<u8>, n: nat) -> int
    decreases n,
{
    if n == 0 || s.len() == 0 {
        0
    } else {
        vt_len(s) + types_len(s.subrange(if vt_len(s) <= s.len() { vt_len(s) } else { s.len() as int }, s.len() as int), (n - 1) as nat)
    }
}

/// The types `ts` are the ones `s` starts with.
pub open spec fn types_decoded(s: Seq<u8>, ts: Seq<VerificationType>, model: Map<u16, EntryModel>) -> bool
    decreases ts.len(),
{
    if ts.len() == 0 {
        true
    } else {
        &&& s.len() >= vt_len(s) >= 1
        &&& ts[0].tag() == s[0]
        &&& (ts[0] is Object ==> class_name_at(model, be16(s[1], s[2]) as u16) == Some(ts[0]->Object_0@))
        &&& types_decoded(s.subrange(vt_len(s), s.len() as int), ts.drop_first(), model)
    }
}

/// Reads `n` types one after another.
fn read_types(n: usize, cp: &MapCp, labels: &mut Labeler, r: &mut ByteReader) -> (res: Result<Vec<VerificationType>, Error>)
    requires
        old(r).wf(),
        old(labels).wf(),
    ensures
        final(r).wf(),
        final(r).bytes@ == old(r).bytes@,
        final(labels).wf(),
        labels_grow(*old(labels), *final(labels)),
        final(labels).offsets@.len() <= old(labels).offsets@.len() + n,
        res is Ok ==> res->Ok_0@.len() == n,
        res is Ok ==> final(r).pos == old(r).pos + types_len(old(r).rest(), n as nat)
            && types_decoded(old(r).rest(), res->Ok_0@, cp.model()),
        old(labels).offsets@.len() + n < u32::MAX ==> (res is Ok <==> types_readable(old(r).rest(), n as nat, cp.model())),
        res is Err ==> res->Err_0 is Invalid || res->Err_0 is Truncated,
    decreases n,
{
    if n == 0 {
        return Ok(Vec::new());
    }
    let ghost s = old(r).rest();
    let t = match VerificationType::read_from(cp, labels, r) {
        Ok(t) => t,
        Err(e) => {
            return Err(e);
        },
    };
    proof {
        crate::cp::lemma_rest_index(*old(r));
        assert(r.rest() =~= s.subrange(vt_len(s), s.len() as int));
    }
    let mut rest = read_types(n - 1, cp, labels, r)?;
    let ghost tail = rest@;
    rest.insert(0, t);
    proof {
        assert(rest@.drop_first() =~= tail);
    }
    Ok(rest)
}

/// A full frame can be read: its offset, its locals with their count, then
/// its stack with its count.
pub open spec fn full_readable(s: Seq<u8>, model: Map<u16, EntryModel>) -> bool {
    let nl = be16(s[3], s[4]) as nat;
    let k = 5 + types_len(s.subrange(5, s.len() as int), nl);
    &&& s.len() >= 5
    &&& types_readable(s.subrange(5, s.len() as int), nl, model)
    &&& s.len() >= k + 2
    &&& types_readable(s.subrange(k + 2, s.len() as int), be16(s[k], s[k + 1]) as nat, model)
}

/// `s` starts with a frame that can be read against the pool `model`.
pub open spec fn frame_readable(s: Seq<u8>, model: Map<u16, EntryModel>) -> bool {
    let t = s[0];
    &&& s.len() >= 1
    &&& !(128 <= t <= 246)
    &&& 64 <= t <= 127 ==> vt_readable(s.subrange(1, s.len() as int), model)
    &&& t >= 247 ==> s.len() >= 3
    &&& t == 247 ==> vt_readable(s.subrange(3, s.len() as int), model)
    &&& 252 <= t <= 254 ==> types_readable(s.subrange(3, s.len() as int), (t - 251) as nat, model)
    &&& t == 255 ==> full_readable(s, model)
}

proof fn lemma_types_len_nonneg(s: Seq<u8>, n: nat)
    ensures
        types_len(s, n) >= 0,
    decreases n,
{
    if n > 0 && s.len() > 0 {
        lemma_types_len_nonneg(
            s.subrange(if vt_len(s) <= s.len() { vt_len(s) } else { s.len() as int }, s.len() as int),
            (n - 1) as nat,
        );
    }
}

proof fn lemma_single_decoded(x: Seq<u8>, t: VerificationType, model: Map<u16, EntryModel>)
    requires
        x.len() >= vt_len(x) >= 1,
        t.tag() == x[0],
        t is Object ==> class_name_at(model, be16(x[1], x[2]) as u16) == Some(t->Object_0@),
    ensures
        types_decoded(x, seq![t], model),
{
    assert(seq![t].drop_first() =~= Seq::<VerificationType>::empty());
    assert(seq![t][0] == t);
    assert(types_decoded(x.subrange(vt_len(x), x.len() as int), Seq::<VerificationType>::empty(), model));
}

/// The bytes a run of types takes once written.
pub open spec fn types_size(ts: Seq<VerificationType>) -> int
    decreases ts.len(),
{
    if ts.len() == 0 {
        0
    } else {
        types_size(ts.drop_last()) + vt_size(ts.last())
    }
}

proof fn lemma_prefix_trans(a: Seq<u8>, b: Seq<u8>, c: Seq<u8>)
    requires
        a.len() <= b.len() <= c.len(),
        b.subrange(0, a.len() as int) == a,
        c.subrange(0, b.len() as int) == b,
    ensures
        c.subrange(0, a.len() as int) == a,
{
    assert(c.subrange(0, a.len() as int) =~= c.subrange(0, b.len() as int).subrange(0, a.len() as int));
}

/// Bytes `x..y` of `c` are those of a prefix `b` of it.
proof fn lemma_prefix_part(b: Seq<u8>, c: Seq<u8>, x: int, y: int)
    requires
        0 <= x <= y <= b.len() <= c.len(),
        c.subrange(0, b.len() as int) == b,
    ensures
        c.subrange(x, y) == b.subrange(x, y),
{
    assert(c.subrange(x, y) =~= c.subrange(0, b.len() as int).subrange(x, y));
}

proof fn lemma_types_written_len(bytes: Seq<u8>, ts: Seq<VerificationType>, abs: Seq<(u32, u32)>, cp: VecCp)
    requires
        types_written(bytes, ts, abs, cp),
    ensures
        bytes.len() == types_size(ts),
    decreases ts.len(),
{
    if ts.len() > 0 {
        let k = bytes.len() - vt_size(ts.last());
        lemma_types_written_len(bytes.subrange(0, k), ts.drop_last(), abs, cp);
    }
}

/// The types a frame holds.
pub open spec fn frame_types(f: RawFrame) -> Seq<VerificationType> {
    match f {
        RawFrame::SameLocalsOneStack(_, t) => seq![t],
        RawFrame::Append(_, ls) => ls@,
        RawFrame::Full(_, ls, st) => ls@ + st@,
        _ => Seq::empty(),
    }
}

/// `bytes` encode the frame `f`: its header, then its types, a full frame
/// with the count before each run.
pub open spec fn frame_written(bytes: Seq<u8>, f: RawFrame, abs: Seq<(u32, u32)>, cp: VecCp) -> bool {
    let h = frame_header(f).len() as int;
    &&& bytes.len() >= h
    &&& bytes.subrange(0, h) == frame_header(f)
    &&& match f {
        RawFrame::SameLocalsOneStack(_, t) => vt_written(bytes.subrange(h, bytes.len() as int), t, abs, cp),
        RawFrame::Append(_, ls) => types_written(bytes.subrange(h, bytes.len() as int), ls@, abs, cp),
        RawFrame::Full(_, ls, st) => {
            let m = h + 2 + types_size(ls@);
            &&& bytes.len() >= m + 2
            &&& bytes.subrange(h, h + 2) == u16_bytes(ls@.len() as u16)
            &&& types_written(bytes.subrange(h + 2, m), ls@, abs, cp)
            &&& bytes.subrange(m, m + 2) == u16_bytes(st@.len() as u16)
            &&& types_written(bytes.subrange(m + 2, bytes.len() as int), st@, abs, cp)
        },
        _ => bytes.len() == h,
    }
}

impl RawFrame {
    /// Reads a frame. Tags 128 to 246 are reserved and rejected.
    pub fn read_from(cp: &MapCp, labels: &mut Labeler, r: &mut ByteReader) -> (res: Result<RawFrame, Error>)
        requires
            old(r).wf(),
            old(labels).wf(),
        ensures
            final(r).wf(),
            final(r).bytes@ == old(r).bytes@,
            final(labels).wf(),
            labels_grow(*old(labels), *final(labels)),
            res is Err ==> res->Err_0 is Invalid || res->Err_0 is Truncated,
            res is Ok ==> old(r).pos < old(r).bytes@.len() && {
                let s = old(r).bytes@;
                let p = old(r).pos as int;
                let t = s[p];
                &&& t <= 63 ==> res->Ok_0 == RawFrame::Same(t as u16)
                &&& 64 <= t <= 127 ==> res->Ok_0 is SameLocalsOneStack && res->Ok_0->SameLocalsOneStack_0 == t - 64
                &&& !(128 <= t <= 246)
                &&& t == 247 ==> res->Ok_0 is SameLocalsOneStack && res->Ok_0->SameLocalsOneStack_0 == be16(s[p + 1], s[p + 2])
                &&& 248 <= t <= 250 ==> res->Ok_0 == RawFrame::Chop(be16(s[p + 1], s[p + 2]) as u16, (251 - t) as u8)
                &&& t == 251 ==> res->Ok_0 == RawFrame::Same(be16(s[p + 1], s[p + 2]) as u16)
                &&& 252 <= t <= 254 ==> res->Ok_0 is Append && res->Ok_0->Append_0 == be16(s[p + 1], s[p + 2]) && res->Ok_0->Append_1@.len() == t - 251
                &&& t == 255 ==> res->Ok_0 is Full && res->Ok_0->Full_0 == be16(s[p + 1], s[p + 2])
            },
            old(r).pos < old(r).bytes@.len() && 128 <= old(r).bytes@[old(r).pos as int] <= 246 ==> res
                == Err::<RawFrame, Error>(Error::Invalid("reserved frame tag")) && final(r).pos == old(r).pos + 1,
            old(labels).offsets@.len() + 0x20000 < u32::MAX ==> (res is Ok <==> frame_readable(old(r).rest(), cp.model())),
            res is Ok && res->Ok_0 is SameLocalsOneStack ==> types_decoded(
                old(r).rest().subrange(if old(r).rest()[0] <= 127 { 1 } else { 3 }, old(r).rest().len() as int),
                seq![res->Ok_0->SameLocalsOneStack_1],
                cp.model(),
            ),
            res is Ok && res->Ok_0 is Append ==> types_decoded(
                old(r).rest().subrange(3, old(r).rest().len() as int),
                res->Ok_0->Append_1@,
                cp.model(),
            ),
            res is Ok && res->Ok_0 is Full ==> {
                let s = old(r).rest();
                let k = 5 + types_len(s.subrange(5, s.len() as int), be16(s[3], s[4]) as nat);
                &&& res->Ok_0->Full_1@.len() == be16(s[3], s[4])
                &&& types_decoded(s.subrange(5, s.len() as int), res->Ok_0->Full_1@, cp.model())
                &&& res->Ok_0->Full_2@.len() == be16(s[k], s[k + 1])
                &&& types_decoded(s.subrange(k + 2, s.len() as int), res->Ok_0->Full_2@, cp.model())
            },
    {
        let ghost s = old(r).rest();
        let ghost p0 = old(r).pos as int;
        proof {
            crate::cp::lemma_rest_index(*old(r));
        }
        let tag = r.read_u8()?;
        proof {
            assert(r.rest() =~= s.subrange(1, s.len() as int));
        }
        if tag <= 63 {
            return Ok(RawFrame::Same(tag as u16));
        }
        if tag <= 127 {
            let ghost r1 = *r;
            let t = VerificationType::read_from(cp, labels, r)?;
            proof {
                crate::cp::lemma_rest_index(r1);
                lemma_single_decoded(r1.rest(), t, cp.model());
            }
            return Ok(RawFrame::SameLocalsOneStack((tag - 64) as u16, t));
        }
        if tag <= 246 {
            return Err(Error::Invalid("reserved frame tag"));
        }
        let off = r.read_u16()?;
        proof {
            assert(r.rest() =~= s.subrange(3, s.len() as int));
        }
        if tag == 247 {
            let ghost r1 = *r;
            let t = VerificationType::read_from(cp, labels, r)?;
            proof {
                crate::cp::lemma_rest_index(r1);
                lemma_single_decoded(r1.rest(), t, cp.model());
            }
            return Ok(RawFrame::SameLocalsOneStack(off, t));
        }
        if tag <= 250 {
            return Ok(RawFrame::Chop(off, 251 - tag));
        }
        if tag == 251 {
            return Ok(RawFrame::Same(off));
        }
        if tag <= 254 {
            let ls = read_types((tag - 251) as usize, cp, labels, r)?;
            return Ok(RawFrame::Append(off, ls));
        }
        let nl = r.read_u16()?;
        proof {
            assert(r.rest() =~= s.subrange(5, s.len() as int));
        }
        let ls = read_types(nl as usize, cp, labels, r)?;
        let ghost k = 5 + types_len(s.subrange(5, s.len() as int), nl as nat);
        proof {
            lemma_types_len_nonneg(s.subrange(5, s.len() as int), nl as nat);
            assert(r.pos == p0 + k);
            assert(s.len() == old(r).bytes@.len() - p0);
            assert(k <= s.len());
            assert(r.rest() =~= s.subrange(k, s.len() as int));
        }
        let ns = r.read_u16()?;
        proof {
            assert(r.rest() =~= s.subrange(k + 2, s.len() as int));
        }
        let st = read_types(ns as usize, cp, labels, r)?;
        Ok(RawFrame::Full(off, ls, st))
    }

    /// Writes a frame. A chop outside one to three and an append of more
    /// than three locals are rejected.
    pub fn write_to(&self, cp: &mut VecCp, abs: &Vec<(u32, u32)>, out: &mut Vec<u8>) -> (r: Result<(), Error>)
        requires
            old(cp).wf(),
        ensures
            final(cp).wf(),
            pool_grows(*old(cp), *final(cp)),
            !frame_ok(*self) ==> r is Err && *final(out) == *old(out) && *final(cp) == *old(cp),
            frame_ok(*self) && types_fit(frame_types(*self), abs@) && old(cp).next_index() + 2
                * frame_types(*self).len() <= 0xFFFF ==> r is Ok,
            r is Ok ==> frame_ok(*self) && final(out)@.len() >= old(out)@.len() && final(out)@.subrange(
                0,
                old(out)@.len() as int,
            ) == old(out)@ && frame_written(
                final(out)@.subrange(old(out)@.len() as int, final(out)@.len() as int),
                *self,
                abs@,
                *final(cp),
            ),
            r is Err ==> r->Err_0 is Invalid,
    {
        let ghost o = out@;
        match self {
            RawFrame::Same(off) => {
                if *off <= 63 {
                    out.push(*off as u8);
                } else {
                    out.push(251);
                    push_u16(out, *off);
                }
                assert(out@ =~= o + frame_header(*self));
                assert(out@.subrange(o.len() as int, out@.len() as int) =~= frame_header(*self));
                proof {
                    let b = out@.subrange(o.len() as int, out@.len() as int);
                    assert(b.subrange(0, b.len() as int) =~= b);
                }
                assert(frame_written(out@.subrange(o.len() as int, out@.len() as int), *self, abs@, *cp));
            },
            RawFrame::SameLocalsOneStack(off, t) => {
                if *off <= 63 {
                    out.push((*off + 64) as u8);
                } else {
                    out.push(247);
                    push_u16(out, *off);
                }
                let ghost h = out@;
                assert(h =~= o + frame_header(*self));
                proof {
                    assert(frame_types(*self)[0] == *t);
                }
                t.write_to(cp, abs, out)?;
                assert(out@.subrange(0, h.len() as int) =~= h);
                proof {
                    let b = out@.subrange(o.len() as int, out@.len() as int);
                    let hl = frame_header(*self).len() as int;
                    lemma_prefix_part(h, out@, o.len() as int, h.len() as int);
                    assert(b.subrange(0, hl) =~= out@.subrange(o.len() as int, h.len() as int));
                    assert(h.subrange(o.len() as int, h.len() as int) =~= frame_header(*self));
                    assert(b.subrange(hl, b.len() as int) =~= out@.subrange(h.len() as int, out@.len() as int));
                    assert(frame_written(b, *self, abs@, *cp));
                }
            },
            RawFrame::Chop(off, k) => {
                if *k < 1 || *k > 3 {
                    return Err(Error::Invalid("chop value"));
                }
                out.push(251 - *k);
                push_u16(out, *off);
                assert(out@ =~= o + frame_header(*self));
                assert(out@.subrange(o.len() as int, out@.len() as int) =~= frame_header(*self));
                proof {
                    let b = out@.subrange(o.len() as int, out@.len() as int);
                    assert(b.subrange(0, b.len() as int) =~= b);
                }
                assert(frame_written(out@.subrange(o.len() as int, out@.len() as int), *self, abs@, *cp));
            },
            RawFrame::Append(off, ls) => {
                if ls.len() > 3 {
                    return Err(Error::Invalid("append locals"));
                }
                out.push(ls.len() as u8 + 251);
                push_u16(out, *off);
                let ghost h = out@;
                assert(h =~= o + frame_header(*self));
                write_types(ls, cp, abs, out)?;
                assert(out@.subrange(0, h.len() as int) =~= h);
                proof {
                    let b = out@.subrange(o.len() as int, out@.len() as int);
                    let hl = frame_header(*self).len() as int;
                    lemma_prefix_part(h, out@, o.len() as int, h.len() as int);
                    assert(b.subrange(0, hl) =~= out@.subrange(o.len() as int, h.len() as int));
                    assert(h.subrange(o.len() as int, h.len() as int) =~= frame_header(*self));
                    assert(b.subrange(hl, b.len() as int) =~= out@.subrange(h.len() as int, out@.len() as int));
                    assert(frame_written(b, *self, abs@, *cp));
                }
            },
            RawFrame::Full(..) => {
                return self.write_full(cp, abs, out);
            },
        }
        assert(out@.subrange(0, o.len() as int) =~= o);
        Ok(())
    }
    /// Writes a full frame.
    fn write_full(&self, cp: &mut VecCp, abs: &Vec<(u32, u32)>, out: &mut Vec<u8>) -> (r: Result<(), Error>)
        requires
            old(cp).wf(),
            *self is Full,
        ensures
            final(cp).wf(),
            pool_grows(*old(cp), *final(cp)),
            !frame_ok(*self) ==> r is Err && *final(out) == *old(out) && *final(cp) == *old(cp),
            frame_ok(*self) && types_fit(frame_types(*self), abs@) && old(cp).next_index() + 2
                * frame_types(*self).len() <= 0xFFFF ==> r is Ok,
            r is Ok ==> frame_ok(*self) && final(out)@.len() >= old(out)@.len() && final(out)@.subrange(
                0,
                old(out)@.len() as int,
            ) == old(out)@ && frame_written(
                final(out)@.subrange(old(out)@.len() as int, final(out)@.len() as int),
                *self,
                abs@,
                *final(cp),
            ),
            r is Err ==> r->Err_0 is Invalid,
    {
        let ghost o = out@;
        let (off, ls, st) = match self {
            RawFrame::Full(off, ls, st) => (off, ls, st),
            _ => {
                return Err(Error::Invalid("full frame"));
            },
        };

        if ls.len() > 0xFFFF || st.len() > 0xFFFF {
            return Err(Error::Invalid("full frame"));
        }
        out.push(255);
        push_u16(out, *off);
        let ghost h = out@;
        assert(h =~= o + frame_header(*self));
        push_u16(out, ls.len() as u16);
        let ghost h1 = out@;
        let ghost c1 = *cp;
        proof {
            assert(frame_types(*self) =~= ls@ + st@);
            if types_fit(frame_types(*self), abs@) {
                assert forall|i: int| 0 <= i < ls@.len() implies vt_fits(#[trigger] ls@[i], abs@) by {
                    assert(frame_types(*self)[i] == ls@[i]);
                }
                assert forall|i: int| 0 <= i < st@.len() implies vt_fits(#[trigger] st@[i], abs@) by {
                    assert(frame_types(*self)[ls@.len() + i] == st@[i]);
                }
            }
        }
        write_types(ls, cp, abs, out)?;
        assert(out@.subrange(0, h.len() as int) =~= h1.subrange(0, h.len() as int));
        let ghost h2 = out@;
        let ghost c2 = *cp;
        proof {
            lemma_types_written_len(out@.subrange(h1.len() as int, out@.len() as int), ls@, abs@, *cp);
        }
        push_u16(out, st.len() as u16);
        let ghost h3 = out@;
        write_types(st, cp, abs, out)?;
        assert(out@.subrange(0, h.len() as int) =~= h3.subrange(0, h.len() as int));
        assert(h3.subrange(0, h.len() as int) =~= h2.subrange(0, h.len() as int));
        assert(out@.subrange(0, h.len() as int) =~= h);
        proof {
            lemma_types_written_grows(h2.subrange(h1.len() as int, h2.len() as int), ls@, abs@, c2, *cp);
            let b = out@.subrange(o.len() as int, out@.len() as int);
            let hl = frame_header(*self).len() as int;
            let m = hl + 2 + types_size(ls@);
            assert(h3.subrange(0, h2.len() as int) =~= h2);
            lemma_prefix_trans(h2, h3, out@);
            lemma_prefix_trans(h1, h2, out@);
            lemma_prefix_part(h1, out@, o.len() as int, h1.len() as int);
            assert(h1.subrange(0, h.len() as int) =~= h);
            assert(b.subrange(0, hl) =~= h1.subrange(o.len() as int, h.len() as int));
            assert(h.subrange(o.len() as int, h.len() as int) =~= frame_header(*self));
            assert(b.subrange(hl, hl + 2) =~= h1.subrange(h.len() as int, h1.len() as int));
            lemma_prefix_part(h3, out@, h2.len() as int, h3.len() as int);
            assert(b.subrange(m, m + 2) =~= h3.subrange(h2.len() as int, h3.len() as int));
            lemma_prefix_part(h2, out@, h1.len() as int, h2.len() as int);
            assert(b.subrange(hl + 2, m) =~= h2.subrange(h1.len() as int, h2.len() as int));
            assert(b.subrange(m, m + 2) =~= u16_bytes(st@.len() as u16));
            assert(b.subrange(m + 2, b.len() as int) =~= out@.subrange(h3.len() as int, out@.len() as int));
            assert(b.subrange(hl + 2, m) =~= h2.subrange(h1.len() as int, h2.len() as int));
            assert(types_written(b.subrange(hl + 2, m), ls@, abs@, *cp));
            assert(types_written(b.subrange(m + 2, b.len() as int), st@, abs@, *cp));
            assert(self->Full_1@ == ls@ && self->Full_2@ == st@);
            assert(b.len() >= hl);
            assert(b.subrange(0, hl) == frame_header(*self));
            assert(b.len() >= m + 2);
            assert(b.subrange(hl, hl + 2) == u16_bytes(ls@.len() as u16));
            assert(b.subrange(m, m + 2) == u16_bytes(st@.len() as u16));
            assert(frame_written(b, *self, abs@, *cp));
        }

        assert(out@.subrange(0, o.len() as int) =~= o);
        Ok(())
    }
}

} // verus!
