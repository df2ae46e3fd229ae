//! Decoding a code array into instructions, minting a label for every
//! position that a jump, the exception table or a side table refers to.
use vstd::prelude::*;
use vstd::string::StringSliceAdditionalSpecFns;
use crate::bytes::{be16, be32, i16_bytes, i8_byte, signed16, signed32, u16_bytes, ByteReader, Error};
use crate::layout::pad;
use crate::cp::{bytes_equal, read_u16_at, EntryModel, MapCp, RawConstantEntry};
use crate::code::{Catch, Code, CodeAttribute, LocalVariable};
use crate::insn::{
    cond_opcode, cp_op, local_op, plain_bytes, simple_op, Instruction, JumpCondition, Label, BIPUSH, GOTO_W,
    IFEQ, IFNONNULL, IFNULL, IINC, INVOKEDYNAMIC, INVOKEINTERFACE, JSR, JSR_W, LDC, LDC_W,
    LOOKUPSWITCH, MULTIANEWARRAY, NEWARRAY, SIPUSH, TABLESWITCH, WIDE,
};

verus! {

/// Labels minted while reading: label `i` marks byte offset `offsets[i]`.
pub struct Labeler {
    pub offsets: Vec<u32>,
}

impl Labeler {
    /// No two labels mark the same offset.
    pub open spec fn wf(&self) -> bool {
        forall|a: int, b: int|
            0 <= a < b < self.offsets@.len() ==> self.offsets@[a] != self.offsets@[b]
    }

    pub fn new() -> (r: Labeler)
        ensures
            r.wf(),
            r.offsets@.len() == 0,
    {
        Labeler { offsets: Vec::new() }
    }

    /// The label of byte offset `off`: the one minted for it before, or a
    /// new one numbered after all others.
    pub fn get_label(&mut self, off: u32) -> (r: Label)
        requires
            old(self).wf(),
            old(self).offsets@.len() < u32::MAX,
        ensures
            final(self).wf(),
            (r.0 as int) < final(self).offsets@.len(),
            final(self).offsets@[r.0 as int] == off,
            old(self).offsets@.contains(off) ==> final(self).offsets@ == old(self).offsets@,
            !old(self).offsets@.contains(off) ==> final(self).offsets@ == old(self).offsets@.push(
                off,
            ),
    {
        let mut i: usize = 0;
        while i < self.offsets.len()
            invariant
                self.wf(),
                self.offsets@ == old(self).offsets@,
                self.offsets@.len() < u32::MAX,
                i <= self.offsets@.len(),
                forall|k: int| 0 <= k < i ==> self.offsets@[k] != off,
            decreases self.offsets@.len() - i,
        {
            if self.offsets[i] == off {
                return Label(i as u32);
            }
            i = i + 1;
        }
        let id = self.offsets.len() as u32;
        self.offsets.push(off);
        Label(id)
    }
}

/// The labeler `b` keeps every label of `a`.
pub open spec fn labels_grow(a: Labeler, b: Labeler) -> bool {
    &&& a.offsets@.len() <= b.offsets@.len()
    &&& forall|i: int| 0 <= i < a.offsets@.len() ==> b.offsets@[i] == a.offsets@[i]
}

/// Reinterprets two bytes as a signed value.
fn to_i16(v: u16) -> (r: i16)
    ensures
        r as int == if v < 0x8000 {
            v as int
        } else {
            v - 0x1_0000
        },
{
    if v < 0x8000 {
        v as i16
    } else {
        ((v - 0x8000) as i16) - 0x7fff - 1
    }
}

/// Reinterprets a byte as a signed value.
fn to_i8(v: u8) -> (r: i16)
    ensures
        r as int == if v < 0x80 {
            v as int
        } else {
            v - 0x100
        },
{
    if v < 0x80 {
        v as i16
    } else {
        v as i16 - 0x100
    }
}

/// The entry at `idx`, or an error when the pool has none there.
fn entry_at(cp: &MapCp, idx: u16) -> (r: Result<RawConstantEntry, Error>)
    ensures
        r is Ok <==> cp.model().contains_key(idx),
        r is Ok ==> r->Ok_0@ == cp.model()[idx],
        r is Err ==> r->Err_0 == Error::Invalid("constant pool index"),
{
    match cp.read_raw(idx) {
        Some(e) => Ok(e),
        None => Err(Error::Invalid("constant pool index")),
    }
}

/// The label of the position `off` bytes from `pos`.
fn target(labels: &mut Labeler, pos: usize, off: i64) -> (r: Result<Label, Error>)
    requires
        old(labels).wf(),
        pos <= u32::MAX,
        -0x8000_0000 <= off < 0x8000_0000,
    ensures
        final(labels).wf(),
        labels_grow(*old(labels), *final(labels)),
        r is Ok ==> 0 <= pos + off <= u32::MAX && (r->Ok_0.0 as int) < final(labels).offsets@.len()
            && final(labels).offsets@[r->Ok_0.0 as int] == pos + off,
        r is Err ==> r->Err_0 is Invalid && *final(labels) == *old(labels),
{
    let t = pos as i64 + off;
    if t < 0 || t > u32::MAX as i64 || labels.offsets.len() >= u32::MAX as usize {
        return Err(Error::Invalid("jump target"));
    }
    Ok(labels.get_label(t as u32))
}

/// `b` is `a` followed by bootstrap references of invokedynamic entries:
/// each pair is a bootstrap-method index and the index of an InvokeDynamic
/// entry of `model` that names it.
pub open spec fn pending_extends(a: Seq<(u16, u16)>, b: Seq<(u16, u16)>, model: Map<u16, EntryModel>) -> bool {
    &&& a.len() <= b.len()
    &&& forall|i: int| 0 <= i < a.len() ==> b[i] == a[i]
    &&& forall|i: int|
        a.len() <= i < b.len() ==> model.contains_key((#[trigger] b[i]).1) && model[b[i].1] is InvokeDynamic
            && model[b[i].1]->InvokeDynamic_0 == b[i].0
}

/// What reading an instruction keeps: the pool's entries, and every label.
pub open spec fn decode_frame(
    cp0: MapCp,
    cp1: MapCp,
    l0: Labeler,
    l1: Labeler,
) -> bool {
    &&& cp1.model() == cp0.model()
    &&& cp1.filled() == cp0.filled()
    &&& pending_extends(cp0.pending(), cp1.pending(), cp0.model())
    &&& l1.wf()
    &&& labels_grow(l0, l1)
}

/// Opcodes whose instruction is a jump.
pub open spec fn is_jump_op(op: u8) -> bool {
    (IFEQ <= op <= JSR) || op == IFNULL || op == IFNONNULL || op == GOTO_W || op == JSR_W || op
        == TABLESWITCH || op == LOOKUPSWITCH
}

fn jump_op(op: u8) -> (r: bool)
    ensures
        r == is_jump_op(op),
{
    (IFEQ <= op && op <= JSR) || op == IFNULL || op == IFNONNULL || op == GOTO_W || op == JSR_W
        || op == TABLESWITCH || op == LOOKUPSWITCH
}

/// The other encoding a non-jump instruction may have been read from: the
/// `wide` form of a local access or increment, or `ldc_w`.
pub open spec fn plain_wide_bytes(insn: Instruction, idx: u16) -> Seq<u8> {
    match insn {
        Instruction::Local(op, n) => seq![WIDE, op] + u16_bytes(n),
        Instruction::Iinc(n, c) => seq![WIDE, IINC] + u16_bytes(n) + i16_bytes(c as int),
        Instruction::Ldc(_) => seq![LDC_W] + u16_bytes(idx),
        _ => plain_bytes(insn, idx),
    }
}

/// `bytes` encode the non-jump `insn`, whose constant, if any, is the
/// entry at `idx` of the pool `model`.
pub open spec fn decoded_plain(bytes: Seq<u8>, insn: Instruction, idx: u16, model: Map<u16, EntryModel>) -> bool {
    &&& !insn.is_jump()
    &&& !insn.is_pseudo()
    &&& insn.plain_ok()
    &&& (insn.entry() is Some ==> model.contains_key(idx) && model[idx] == insn.entry()->Some_0)
    &&& (bytes == plain_bytes(insn, idx) || bytes == plain_wide_bytes(insn, idx))
}

/// The bytes `s[a..b]` hold `insn`: a non-jump instruction exactly as
/// [`decoded_plain`] says, a jump exactly as [`jump_decoded`] says with its
/// labels marking the offsets `offs` gives.
pub open spec fn decoded_at(s: Seq<u8>, a: int, b: int, insn: Instruction, model: Map<u16, EntryModel>, offs: Seq<u32>) -> bool {
    &&& 0 <= a < b <= s.len()
    &&& if insn.is_jump() {
        jump_decoded(s, a, b, insn, offs) && refs_below(insn, offs.len())
    } else {
        exists|idx: u16| decoded_plain(s.subrange(a, b), insn, idx, model)
    }
}

/// The eight bytes of the exception table at `b` read as `c`, with labels
/// marking the offsets `offs` gives: start, end and handler offsets, and
/// the class, none for index zero.
pub open spec fn catch_read(s: Seq<u8>, b: int, c: Catch, offs: Seq<u32>, model: Map<u16, EntryModel>) -> bool {
    let t = be16(s[b + 6], s[b + 7]) as u16;
    &&& offs[c.start.0 as int] == be16(s[b], s[b + 1])
    &&& offs[c.end.0 as int] == be16(s[b + 2], s[b + 3])
    &&& offs[c.handler.0 as int] == be16(s[b + 4], s[b + 5])
    &&& (t == 0 <==> c.catch is None)
    &&& (c.catch is Some ==> model.contains_key(t) && model[t] is Class && model.contains_key(model[t]->Class_0)
        && model[model[t]->Class_0] == EntryModel::UTF8(c.catch->Some_0@))
}

/// The exception table at `b` reads as `catches`: its count, then a row each, in order.
pub open spec fn table_read(s: Seq<u8>, b: int, catches: Seq<Catch>, offs: Seq<u32>, model: Map<u16, EntryModel>) -> bool {
    &&& b + 2 + 8 * catches.len() <= s.len()
    &&& be16(s[b], s[b + 1]) == catches.len()
    &&& forall|k: int| 0 <= k < catches.len() ==> #[trigger] catch_read(s, b + 2 + 8 * k, catches[k], offs, model)
}

/// From offset `p` of `s` stands a Code attribute body that reads as
/// `code` and `catches`: the code array, of the length its header gives,
/// decodes as [`decoded_run`] says with each label right before the
/// instruction at the offset it marks, and the exception table after it
/// reads as [`table_read`] says, with the same label offsets; distinct
/// labels mark distinct offsets, each LineNumberTable row's line stands
/// before the instruction at its offset, and each row of a
/// LocalVariableTable (LocalVariableTypeTable) is held by a variable with
/// its key and a descriptor (signature).
pub open spec fn body_read(
    s: Seq<u8>,
    p: int,
    code: Seq<Instruction>,
    catches: Seq<Catch>,
    attrs: Seq<CodeAttribute>,
    model: Map<u16, EntryModel>,
) -> bool {
    exists|pos: Seq<int>, offs: Seq<u32>| #[trigger] body_read_with(s, p, code, catches, attrs, model, pos, offs)
}

/// The local variables among `attrs`: those of a final `LocalVariables`.
pub open spec fn attr_vars(attrs: Seq<CodeAttribute>) -> Seq<LocalVariable> {
    if attrs.len() > 0 && attrs.last() is LocalVariables {
        attrs.last()->LocalVariables_0@
    } else {
        Seq::empty()
    }
}

/// [`body_read`] with the layout `pos` and the label offsets `offs`.
pub open spec fn body_read_with(
    s: Seq<u8>,
    p: int,
    code: Seq<Instruction>,
    catches: Seq<Catch>,
    attrs: Seq<CodeAttribute>,
    model: Map<u16, EntryModel>,
    pos: Seq<int>,
    offs: Seq<u32>,
) -> bool {
    let len = be32(s[p + 4], s[p + 5], s[p + 6], s[p + 7]);
    let a = attrs_start(s, p);
    let na = be16(s[a], s[a + 1]) as nat;
    &&& forall|k: int| 0 <= k < local_entries(s, a + 2, na, 1, model).len() ==> #[trigger] row_held(
        attr_vars(attrs),
        local_entries(s, a + 2, na, 1, model)[k],
        offs,
        false,
    )
    &&& forall|k: int| 0 <= k < local_entries(s, a + 2, na, 2, model).len() ==> #[trigger] row_held(
        attr_vars(attrs),
        local_entries(s, a + 2, na, 2, model)[k],
        offs,
        true,
    )
    &&& forall|a: int, b: int| 0 <= a < b < offs.len() ==> offs[a] != offs[b]
    &&& decoded_run(s.subrange(p + 8, p + 8 + len), real_insns(code), model, pos, offs)
    &&& forall|id: u32| (id as int) < offs.len() ==> #[trigger] label_at_pos(code, pos, id, offs[id as int])
    &&& table_read(s, p + 8 + len, catches, offs, model)
    &&& forall|j: int|
        0 <= j < line_entries(s, attrs_start(s, p) + 2, be16(s[attrs_start(s, p)], s[attrs_start(s, p) + 1]) as nat, model).len()
            ==> #[trigger] line_at_pos(
            code,
            pos,
            line_entries(s, attrs_start(s, p) + 2, be16(s[attrs_start(s, p)], s[attrs_start(s, p) + 1]) as nat, model)[j],
        )
}

/// The line of the row stands right before the real instruction at the
/// row's offset in the layout `pos`.
pub open spec fn line_at_pos(code: Seq<Instruction>, pos: Seq<int>, row: (u32, u16)) -> bool {
    exists|slot: int| #[trigger] line_placed_at(code, row.1, slot) && 0 <= slot < pos.len() && pos[slot] == row.0
}

/// `Label(id)` stands after as many real instructions as precede offset
/// `off` in the layout `pos`.
pub open spec fn label_at_pos(code: Seq<Instruction>, pos: Seq<int>, id: u32, off: u32) -> bool {
    exists|slot: int| #[trigger] placed_at(code, id, slot) && 0 <= slot < pos.len() && pos[slot] == off
}

/// The instructions start at the offsets `pos`, the last one ending where
/// the code array does.
pub open spec fn decoded_run(s: Seq<u8>, insns: Seq<Instruction>, model: Map<u16, EntryModel>, pos: Seq<int>, offs: Seq<u32>) -> bool {
    &&& pos.len() == insns.len() + 1
    &&& pos[0] == 0
    &&& pos[insns.len() as int] == s.len()
    &&& forall|i: int| 0 <= i < insns.len() ==> #[trigger] decoded_at(s, pos[i], pos[i + 1], insns[i], model, offs)
}

/// Two instructions are the same, constants compared by value.
pub open spec fn same_insn(a: Instruction, b: Instruction) -> bool {
    match (a, b) {
        (Instruction::Ldc(x), Instruction::Ldc(y)) => x@ == y@,
        (Instruction::Constant(o, x), Instruction::Constant(q, y)) => o == q && x@ == y@,
        (Instruction::InvokeInterface(x, c), Instruction::InvokeInterface(y, d)) => x@ == y@ && c == d,
        (Instruction::InvokeDynamic(x), Instruction::InvokeDynamic(y)) => x@ == y@,
        (Instruction::MultiANewArray(x, c), Instruction::MultiANewArray(y, d)) => x@ == y@ && c == d,
        (Instruction::Op(o), Instruction::Op(q)) => o == q,
        (Instruction::Byte(o, x), Instruction::Byte(q, y)) => o == q && x == y,
        (Instruction::Sipush(x), Instruction::Sipush(y)) => x == y,
        (Instruction::Local(o, x), Instruction::Local(q, y)) => o == q && x == y,
        (Instruction::Iinc(n, x), Instruction::Iinc(m, y)) => n == m && x == y,
        _ => false,
    }
}

proof fn lemma_u16_bytes_eq(a: u16, b: u16)
    requires
        u16_bytes(a) == u16_bytes(b),
    ensures
        a == b,
{
    assert(u16_bytes(a)[0] == u16_bytes(b)[0]);
    assert(u16_bytes(a)[1] == u16_bytes(b)[1]);
}

proof fn lemma_i16_bytes_eq(a: i16, b: i16)
    requires
        i16_bytes(a as int) == i16_bytes(b as int),
    ensures
        a == b,
{
    let ua = (if a < 0 { a + 0x1_0000 } else { a as int }) as u16;
    let ub = (if b < 0 { b + 0x1_0000 } else { b as int }) as u16;
    lemma_u16_bytes_eq(ua, ub);
}

/// Reading back the bytes written for a non-jump instruction, against a
/// pool that holds its constant at the index it was written with, gives
/// the same instruction.
pub proof fn lemma_plain_round_trip(
    i: Instruction,
    j: Instruction,
    idx: u16,
    jdx: u16,
    model: Map<u16, EntryModel>,
)
    requires
        !i.is_jump(),
        !i.is_pseudo(),
        i.plain_ok(),
        i.entry() is Some ==> model.contains_key(idx) && model[idx] == i.entry()->Some_0,
        decoded_plain(plain_bytes(i, idx), j, jdx, model),
    ensures
        same_insn(i, j),
{
    let b = plain_bytes(i, idx);
    let bj = if b == plain_bytes(j, jdx) {
        plain_bytes(j, jdx)
    } else {
        plain_wide_bytes(j, jdx)
    };
    assert(b == bj);
    assert(b[0] == bj[0]);
    assert(b.len() == bj.len());
    match i {
        Instruction::Op(o) => {},
        Instruction::Byte(o, x) => {
            assert(b[1] == bj[1]);
        },
        Instruction::Sipush(x) => {
            let y = j->Sipush_0;
            assert(b.subrange(1, 3) =~= i16_bytes(x as int));
            assert(bj.subrange(1, 3) =~= i16_bytes(y as int));
            lemma_i16_bytes_eq(x, y);
        },
        Instruction::Local(o, n) => {
            if n <= 255 {
                assert(b[1] == bj[1]);
            } else {
                assert(b[1] == bj[1]);
                let m = j->Local_1;
                assert(b.subrange(2, 4) =~= u16_bytes(n));
                assert(bj.subrange(2, 4) =~= u16_bytes(m));
                lemma_u16_bytes_eq(n, m);
            }
        },
        Instruction::Iinc(n, c) => {
            let (m, d) = (j->Iinc_0, j->Iinc_1);
            if n <= 255 && -128 <= c <= 127 {
                assert(b[1] == bj[1] && b[2] == bj[2]);
            } else {
                assert(b[1] == bj[1]);
                assert(b.subrange(2, 4) =~= u16_bytes(n));
                assert(bj.subrange(2, 4) =~= u16_bytes(m));
                lemma_u16_bytes_eq(n, m);
                assert(b.subrange(4, 6) =~= i16_bytes(c as int));
                assert(bj.subrange(4, 6) =~= i16_bytes(d as int));
                lemma_i16_bytes_eq(c, d);
            }
        },
        Instruction::Ldc(_) => {
            if idx <= 255 {
                assert(b[1] == bj[1]);
            } else {
                assert(b.subrange(1, 3) =~= u16_bytes(idx));
                assert(bj.subrange(1, 3) =~= u16_bytes(jdx));
                lemma_u16_bytes_eq(idx, jdx);
            }
        },
        _ => {
            assert(b.subrange(1, 3) =~= u16_bytes(idx));
            assert(bj.subrange(1, 3) =~= u16_bytes(jdx));
            lemma_u16_bytes_eq(idx, jdx);
            if b.len() >= 4 {
                assert(b[3] == bj[3]);
            }
        },
    }
}

/// Decodes a non-jump instruction.
fn decode_plain(r: &mut ByteReader, cp: &mut MapCp) -> (res: Result<(Instruction, u16), Error>)
    requires
        old(r).wf(),
        old(r).pos < old(r).bytes@.len(),
        !is_jump_op(old(r).bytes@[old(r).pos as int]),
    ensures
        final(r).wf(),
        final(r).bytes@ == old(r).bytes@,
        final(cp).model() == old(cp).model(),
        final(cp).filled() == old(cp).filled(),
        pending_extends(old(cp).pending(), final(cp).pending(), old(cp).model()),
        res is Ok ==> final(r).pos > old(r).pos && decoded_plain(
            old(r).bytes@.subrange(old(r).pos as int, final(r).pos as int),
            res->Ok_0.0,
            res->Ok_0.1,
            old(cp).model(),
        ),
        res is Err ==> res->Err_0 is Invalid || res->Err_0 is Truncated,
{
    let pos = r.pos;
    let op = r.read_u8()?;
    let ghost s = r.bytes@;
    let ghost m = cp.model();
    if simple_op(op) {
        let insn = Instruction::Op(op);
        let pool_idx: u16 = 0u16;
        assert(decoded_plain(s.subrange(pos as int, r.pos as int), insn, pool_idx, m)) by {
            assert(s.subrange(pos as int, r.pos as int) =~= seq![op]);
            assert(plain_bytes(insn, 0u16) == seq![op]);
        }
        return Ok((insn, pool_idx));
    }
    if op == BIPUSH || op == NEWARRAY {
        let b = r.read_u8()?;
        let insn = Instruction::Byte(op, b);
        let pool_idx: u16 = 0u16;
        assert(decoded_plain(s.subrange(pos as int, r.pos as int), insn, pool_idx, m)) by {
            assert(s.subrange(pos as int, r.pos as int) =~= seq![op, b]);
            assert(plain_bytes(insn, 0u16) == seq![op, b]);
        }
        return Ok((insn, pool_idx));
    }
    if op == SIPUSH {
        let at1 = r.pos;
        let v = read_u16_at(r)?;
        let x = to_i16(v);
        let insn = Instruction::Sipush(x);
        let pool_idx: u16 = 0;
        assert(decoded_plain(s.subrange(pos as int, r.pos as int), insn, pool_idx, m)) by {
            assert(i16_bytes(x as int) == u16_bytes(v));
            assert(s.subrange(pos as int, r.pos as int) =~= seq![op] + s.subrange(at1 as int, r.pos as int));
        }
        return Ok((insn, pool_idx));
    }
    if op == LDC {
        let idx = r.read_u8()?;
        let e = entry_at(cp, idx as u16)?;
        let insn = Instruction::Ldc(e);
        let pool_idx: u16 = idx as u16;
        assert(decoded_plain(s.subrange(pos as int, r.pos as int), insn, pool_idx, m)) by {
            assert(s.subrange(pos as int, r.pos as int) =~= seq![op, idx]);
        }
        return Ok((insn, pool_idx));
    }
    if op == LDC_W || cp_op(op) {
        let at1 = r.pos;
        let idx = read_u16_at(r)?;
        let e = entry_at(cp, idx)?;
        let insn = if op == LDC_W {
            Instruction::Ldc(e)
        } else {
            Instruction::Constant(op, e)
        };
        let pool_idx: u16 = idx;
        assert(decoded_plain(s.subrange(pos as int, r.pos as int), insn, pool_idx, m)) by {
            assert(s.subrange(pos as int, r.pos as int) =~= seq![op] + s.subrange(at1 as int, r.pos as int));
        }
        return Ok((insn, pool_idx));
    }
    if local_op(op) {
        let n = r.read_u8()?;
        let insn = Instruction::Local(op, n as u16);
        let pool_idx: u16 = 0;
        assert(decoded_plain(s.subrange(pos as int, r.pos as int), insn, pool_idx, m)) by {
            assert(s.subrange(pos as int, r.pos as int) =~= seq![op, n]);
        }
        return Ok((insn, pool_idx));
    }
    if op == IINC {
        let n = r.read_u8()?;
        let c = r.read_u8()?;
        let x = to_i8(c);
        let insn = Instruction::Iinc(n as u16, x);
        let pool_idx: u16 = 0;
        assert(decoded_plain(s.subrange(pos as int, r.pos as int), insn, pool_idx, m)) by {
            assert(i8_byte(x as int) == c);
            assert(s.subrange(pos as int, r.pos as int) =~= seq![op, n, c]);
        }
        return Ok((insn, pool_idx));
    }
    if op == WIDE {
        let op2 = r.read_u8()?;
        let at2 = r.pos;
        if local_op(op2) {
            let n = read_u16_at(r)?;
            let insn = Instruction::Local(op2, n);
            let pool_idx: u16 = 0;
        assert(decoded_plain(s.subrange(pos as int, r.pos as int), insn, pool_idx, m)) by {
                assert(s.subrange(pos as int, r.pos as int) =~= seq![op, op2] + s.subrange(at2 as int, r.pos as int));
            }
            return Ok((insn, pool_idx));
        }
        if op2 == IINC {
            let n = read_u16_at(r)?;
            let at3 = r.pos;
            let c = read_u16_at(r)?;
            let x = to_i16(c);
            let insn = Instruction::Iinc(n, x);
            let pool_idx: u16 = 0;
        assert(decoded_plain(s.subrange(pos as int, r.pos as int), insn, pool_idx, m)) by {
                assert(i16_bytes(x as int) == u16_bytes(c));
                assert(s.subrange(pos as int, r.pos as int) =~= seq![op, op2] + s.subrange(at2 as int, at3 as int) + s.subrange(at3 as int, r.pos as int));
            }
            return Ok((insn, pool_idx));
        }
        return Err(Error::Invalid("wide opcode"));
    }
    if op == INVOKEINTERFACE || op == INVOKEDYNAMIC || op == MULTIANEWARRAY {
        let at1 = r.pos;
        let idx = read_u16_at(r)?;
        let e = entry_at(cp, idx)?;
        let a = r.read_u8()?;
        if op == MULTIANEWARRAY {
            let insn = Instruction::MultiANewArray(e, a);
            let pool_idx: u16 = idx;
        assert(decoded_plain(s.subrange(pos as int, r.pos as int), insn, pool_idx, m)) by {
                assert(s.subrange(pos as int, r.pos as int) =~= seq![op] + s.subrange(at1 as int, at1 + 2) + seq![a]);
            }
            return Ok((insn, pool_idx));
        }
        let b = r.read_u8()?;
        if b != 0 || (op == INVOKEDYNAMIC && a != 0) {
            return Err(Error::Invalid("reserved operand"));
        }
        let insn = if op == INVOKEINTERFACE {
            Instruction::InvokeInterface(e, a)
        } else {
            if let RawConstantEntry::InvokeDynamic(bsm, _) = e {
                cp.resolve_later(bsm, idx);
            }
            Instruction::InvokeDynamic(e)
        };
        let pool_idx: u16 = idx;
        assert(decoded_plain(s.subrange(pos as int, r.pos as int), insn, pool_idx, m)) by {
            assert(s.subrange(pos as int, r.pos as int) =~= seq![op] + s.subrange(at1 as int, at1 + 2) + seq![a, b]);
        }
        return Ok((insn, pool_idx));
    }
    Err(Error::Invalid("opcode"))
}

/// Decodes the instruction at the reader's position, which is its offset
/// in the code array. Jump targets become labels; constants are looked up
/// in the pool; an `invokedynamic` registers its bootstrap reference with
/// the pool.
pub fn decode_insn(r: &mut ByteReader, cp: &mut MapCp, labels: &mut Labeler) -> (res: Result<
    Instruction,
    Error,
>)
    requires
        old(r).wf(),
        old(r).pos < old(r).bytes@.len(),
        old(r).bytes@.len() <= u32::MAX,
        old(labels).wf(),
    ensures
        final(r).wf(),
        final(r).bytes@ == old(r).bytes@,
        decode_frame(*old(cp), *final(cp), *old(labels), *final(labels)),
        res is Ok ==> final(r).pos > old(r).pos && !res->Ok_0.is_pseudo(),
        res is Ok ==> refs_below(res->Ok_0, final(labels).offsets@.len() as nat),
        res is Ok ==> (res->Ok_0.is_jump() <==> is_jump_op(old(r).bytes@[old(r).pos as int])),
        res is Ok && res->Ok_0.is_jump() ==> jump_decoded(
            old(r).bytes@,
            old(r).pos as int,
            final(r).pos as int,
            res->Ok_0,
            final(labels).offsets@,
        ),
        res is Ok && res->Ok_0.entry() is Some ==> exists|idx: u16|
            old(cp).model().contains_key(idx) && old(cp).model()[idx] == res->Ok_0.entry()->Some_0,
        res is Ok && (res->Ok_0 is Jump || res->Ok_0 is Jsr) ==> {
            let l = match res->Ok_0 {
                Instruction::Jump(_, l) => l,
                Instruction::Jsr(l) => l,
                _ => Label(0),
            };
            let s = old(r).bytes@;
            let p = old(r).pos as int;
            &&& (l.0 as int) < final(labels).offsets@.len()
            &&& (s[p] == GOTO_W || s[p] == JSR_W) ==> final(labels).offsets@[l.0 as int] == p
                + signed32(be32(s[p + 1], s[p + 2], s[p + 3], s[p + 4]))
            &&& !(s[p] == GOTO_W || s[p] == JSR_W) ==> final(labels).offsets@[l.0 as int] == p
                + signed16(be16(s[p + 1], s[p + 2]))
        },
        res is Ok && !res->Ok_0.is_jump() ==> exists|idx: u16|
            decoded_plain(
                old(r).bytes@.subrange(old(r).pos as int, final(r).pos as int),
                res->Ok_0,
                idx,
                old(cp).model(),
            ),
        res is Err ==> res->Err_0 is Invalid || res->Err_0 is Truncated,
{
    let pos = r.pos;
    let first = r.bytes[pos];
    if !jump_op(first) {
        let ghost at0 = r.pos as int;
        let (insn, idx) = decode_plain(r, cp)?;
        assert(decoded_plain(old(r).bytes@.subrange(at0, r.pos as int), insn, idx, old(cp).model()));
        return Ok(insn);
    }
    let op = r.read_u8()?;
    if let Some(c) = JumpCondition::from_opcode(op) {
        let off = r.read_u16()?;
        let l = target(labels, pos, to_i16(off) as i64)?;
        return Ok(Instruction::Jump(c, l));
    }
    if op == JSR {
        let off = r.read_u16()?;
        let l = target(labels, pos, to_i16(off) as i64)?;
        return Ok(Instruction::Jsr(l));
    }
    if op == GOTO_W || op == JSR_W {
        let off = r.read_i32()?;
        let l = target(labels, pos, off as i64)?;
        if op == GOTO_W {
            return Ok(Instruction::Jump(JumpCondition::Always, l));
        } else {
            return Ok(Instruction::Jsr(l));
        }
    }
    if op == TABLESWITCH || op == LOOKUPSWITCH {
        let _pad = r.read_bytes((3 - pos % 4) as usize)?;
        let ghost d = r.pos as int;
        assert(d == pos + 1 + pad(pos as int));
        let def_off = r.read_i32()?;
        let default = target(labels, pos, def_off as i64)?;
        if op == TABLESWITCH {
            let low = r.read_i32()?;
            let high = r.read_i32()?;
            if high < low {
                return Err(Error::Invalid("tableswitch bounds"));
            }
            let count = high as i64 - low as i64 + 1;
            if count > ((r.bytes.len() - r.pos) / 4) as i64 {
                return Err(Error::Truncated);
            }
            let mut offsets: Vec<Label> = Vec::new();
            let mut i: i64 = 0;
            while i < count
                invariant
                    r.wf(),
                    r.bytes@ == old(r).bytes@,
                    r.bytes@.len() <= u32::MAX,
                    pos <= u32::MAX,
                    pos < r.pos,
                    labels.wf(),
                    labels_grow(*old(labels), *labels),
                    decode_frame(*old(cp), *cp, *old(labels), *labels),
                    (default.0 as nat) < labels.offsets@.len(),
                    forall|k: int| 0 <= k < offsets@.len() ==> ((#[trigger] offsets@[k]).0 as nat) < labels.offsets@.len(),
                    0 <= i <= count,
                    offsets@.len() == i,
                    r.pos == d + 12 + 4 * i,
                    labels.offsets@[default.0 as int] == pos + word(old(r).bytes@, d),
                    forall|k: int| 0 <= k < offsets@.len() ==> labels.offsets@[(#[trigger] offsets@[k]).0 as int] == pos + word(old(r).bytes@, d + 12 + 4 * k),
                decreases count - i,
            {
                let o = r.read_i32()?;
                let ghost l0 = labels.offsets@;
                let l = target(labels, pos, o as i64)?;
                let ghost prev = offsets@;
                offsets.push(l);
                proof {
                    assert forall|k: int| 0 <= k < offsets@.len() implies labels.offsets@[(#[trigger] offsets@[k]).0 as int] == pos + word(old(r).bytes@, d + 12 + 4 * k) by {
                        if k < prev.len() {
                            assert(offsets@[k] == prev[k]);
                            assert(l0[prev[k].0 as int] == labels.offsets@[prev[k].0 as int]);
                        }
                    }
                }
                i = i + 1;
            }
            return Ok(Instruction::TableSwitch { default, low, offsets });
        } else {
            let n = r.read_i32()?;
            if n < 0 {
                return Err(Error::Invalid("lookupswitch count"));
            }
            if n as usize > (r.bytes.len() - r.pos) / 8 {
                return Err(Error::Truncated);
            }
            let mut table: Vec<(i32, Label)> = Vec::new();
            let mut i: i32 = 0;
            while i < n
                invariant
                    r.wf(),
                    r.bytes@ == old(r).bytes@,
                    r.bytes@.len() <= u32::MAX,
                    pos <= u32::MAX,
                    pos < r.pos,
                    labels.wf(),
                    labels_grow(*old(labels), *labels),
                    decode_frame(*old(cp), *cp, *old(labels), *labels),
                    (default.0 as nat) < labels.offsets@.len(),
                    forall|k: int| 0 <= k < table@.len() ==> ((#[trigger] table@[k]).1.0 as nat) < labels.offsets@.len(),
                    0 <= i <= n,
                    table@.len() == i,
                    r.pos == d + 8 + 8 * i,
                    labels.offsets@[default.0 as int] == pos + word(old(r).bytes@, d),
                    forall|k: int| 0 <= k < table@.len() ==> (#[trigger] table@[k]).0 == word(old(r).bytes@, d + 8 + 8 * k)
                        && labels.offsets@[table@[k].1.0 as int] == pos + word(old(r).bytes@, d + 12 + 8 * k),
                decreases n - i,
            {
                let k = r.read_i32()?;
                let o = r.read_i32()?;
                let ghost l0 = labels.offsets@;
                let l = target(labels, pos, o as i64)?;
                let ghost prev = table@;
                table.push((k, l));
                proof {
                    assert forall|m: int| 0 <= m < table@.len() implies (#[trigger] table@[m]).0 == word(old(r).bytes@, d + 8 + 8 * m)
                        && labels.offsets@[table@[m].1.0 as int] == pos + word(old(r).bytes@, d + 12 + 8 * m) by {
                        if m < prev.len() {
                            assert(table@[m] == prev[m]);
                            assert(l0[prev[m].1.0 as int] == labels.offsets@[prev[m].1.0 as int]);
                        }
                    }
                }
                i = i + 1;
            }
            return Ok(Instruction::LookupSwitch { default, table });
        }
    }
    Err(Error::Invalid("opcode"))
}

/// The four bytes of `s` at `i`, read as a signed value.
pub open spec fn word(s: Seq<u8>, i: int) -> int {
    signed32(be32(s[i], s[i + 1], s[i + 2], s[i + 3]))
}

/// The bytes `s[a..b]` hold the jump `insn`, whose labels mark the offsets
/// `offs` gives: a branch with its condition and its 16-bit or 32-bit
/// offset, a switch with its padding, default, bounds or count, and table.
pub open spec fn jump_decoded(s: Seq<u8>, a: int, b: int, insn: Instruction, offs: Seq<u32>) -> bool {
    let d = a + 1 + pad(a);
    match insn {
        Instruction::Jump(c, l) => (b == a + 3 && s[a] == cond_opcode(c) && offs[l.0 as int] == a
            + signed16(be16(s[a + 1], s[a + 2]))) || (c == JumpCondition::Always && b == a + 5
            && s[a] == GOTO_W && offs[l.0 as int] == a + word(s, a + 1)),
        Instruction::Jsr(l) => (b == a + 3 && s[a] == JSR && offs[l.0 as int] == a + signed16(
            be16(s[a + 1], s[a + 2]),
        )) || (b == a + 5 && s[a] == JSR_W && offs[l.0 as int] == a + word(s, a + 1)),
        Instruction::TableSwitch { default, low, offsets } => {
            &&& s[a] == TABLESWITCH
            &&& b == d + 12 + 4 * offsets@.len()
            &&& offs[default.0 as int] == a + word(s, d)
            &&& low == word(s, d + 4)
            &&& word(s, d + 8) == low + offsets@.len() - 1
            &&& forall|k: int| 0 <= k < offsets@.len() ==> offs[(#[trigger] offsets@[k]).0 as int] == a + word(s, d + 12 + 4 * k)
        },
        Instruction::LookupSwitch { default, table } => {
            &&& s[a] == LOOKUPSWITCH
            &&& b == d + 8 + 8 * table@.len()
            &&& offs[default.0 as int] == a + word(s, d)
            &&& word(s, d + 4) == table@.len()
            &&& forall|k: int| 0 <= k < table@.len() ==> (#[trigger] table@[k]).0 == word(s, d + 8 + 8 * k)
                && offs[table@[k].1.0 as int] == a + word(s, d + 12 + 8 * k)
        },
        _ => false,
    }
}

/// Every label that `insn` refers to is numbered below `n`.
pub open spec fn refs_below(insn: Instruction, n: nat) -> bool {
    match insn {
        Instruction::Jump(_, l) => (l.0 as nat) < n,
        Instruction::Jsr(l) => (l.0 as nat) < n,
        Instruction::TableSwitch { default, offsets, .. } => (default.0 as nat) < n && forall|k: int|
            0 <= k < offsets@.len() ==> ((#[trigger] offsets@[k]).0 as nat) < n,
        Instruction::LookupSwitch { default, table } => (default.0 as nat) < n && forall|k: int|
            0 <= k < table@.len() ==> ((#[trigger] table@[k]).1.0 as nat) < n,
        _ => true,
    }
}

proof fn lemma_decoded_at_grow(
    s: Seq<u8>,
    a: int,
    b: int,
    insn: Instruction,
    model: Map<u16, EntryModel>,
    o1: Seq<u32>,
    o2: Seq<u32>,
)
    requires
        decoded_at(s, a, b, insn, model, o1),
        o1.len() <= o2.len(),
        forall|i: int| 0 <= i < o1.len() ==> o2[i] == o1[i],
    ensures
        decoded_at(s, a, b, insn, model, o2),
{
    if insn.is_jump() {
        lemma_refs_below_grow(insn, o1.len(), o2.len());
        match insn {
            Instruction::TableSwitch { default, low, offsets } => {
                assert forall|k: int| 0 <= k < offsets@.len() implies o2[(#[trigger] offsets@[k]).0 as int] == o1[offsets@[k].0 as int] by {
                    assert((offsets@[k].0 as nat) < o1.len());
                }
            },
            Instruction::LookupSwitch { default, table } => {
                assert forall|k: int| 0 <= k < table@.len() implies o2[(#[trigger] table@[k]).1.0 as int] == o1[table@[k].1.0 as int] by {
                    assert((table@[k].1.0 as nat) < o1.len());
                }
            },
            _ => {},
        }
    }
}

proof fn lemma_refs_below_grow(insn: Instruction, n: nat, m: nat)
    requires
        refs_below(insn, n),
        n <= m,
    ensures
        refs_below(insn, m),
{
}

/// The instructions of `code` that are not pseudo-instructions, in order.
pub open spec fn real_insns(code: Seq<Instruction>) -> Seq<Instruction>
    decreases code.len(),
{
    if code.len() == 0 {
        Seq::empty()
    } else if code.last().is_pseudo() {
        real_insns(code.drop_last())
    } else {
        real_insns(code.drop_last()).push(code.last())
    }
}

proof fn lemma_real_push(code: Seq<Instruction>, x: Instruction)
    ensures
        real_insns(code.push(x)) == if x.is_pseudo() {
            real_insns(code)
        } else {
            real_insns(code).push(x)
        },
{
    assert(code.push(x).drop_last() =~= code);
}

/// `code` holds a `Label` pseudo-instruction for label `id`.
pub open spec fn label_present(code: Seq<Instruction>, id: u32) -> bool {
    exists|i: int| 0 <= i < code.len() && code[i] == Instruction::Label(Label(id))
}

/// Every label below `n` stands exactly once in `code` as a `Label`
/// pseudo-instruction, no other `Label` does, and every branch refers to one
/// of them.
pub open spec fn labels_placed(code: Seq<Instruction>, n: nat) -> bool {
    &&& forall|id: u32| (id as nat) < n ==> #[trigger] label_present(code, id)
    &&& forall|i: int, j: int|
        0 <= i < code.len() && 0 <= j < code.len() && code[i] is Label && #[trigger] code[i] == #[trigger] code[j] ==> i == j
    &&& forall|i: int| 0 <= i < code.len() && #[trigger] code[i] is Label ==> (code[i]->Label_0.0 as nat) < n
    &&& forall|i: int| 0 <= i < code.len() ==> #[trigger] refs_below(code[i], n)
}

/// The labels of `code` are numbered from zero, each placed exactly once,
/// and every instruction, catch and local variable refers to one of them.
pub open spec fn every_label_placed(code: Seq<Instruction>, catches: Seq<Catch>, attrs: Seq<CodeAttribute>) -> bool {
    exists|n: nat|
        labels_placed(code, n) && (forall|i: int|
            0 <= i < catches.len() ==> #[trigger] catch_refs_below(catches[i], n)) && attrs_below(attrs, n)
}

/// The labels of every variable are numbered below `n`.
pub open spec fn vars_below(vs: Seq<LocalVariable>, n: nat) -> bool {
    forall|i: int| 0 <= i < vs.len() ==> ((#[trigger] vs[i]).start.0 as nat) < n && (vs[i].end.0 as nat) < n
}

/// The labels of every local variable among `attrs` are numbered below `n`.
pub open spec fn attrs_below(attrs: Seq<CodeAttribute>, n: nat) -> bool {
    forall|i: int| 0 <= i < attrs.len() && (#[trigger] attrs[i]) is LocalVariables ==> vars_below(attrs[i]->LocalVariables_0@, n)
}

/// The labels of a catch are numbered below `n`.
pub open spec fn catch_refs_below(c: Catch, n: nat) -> bool {
    (c.start.0 as nat) < n && (c.end.0 as nat) < n && (c.handler.0 as nat) < n
}

/// `off` is where an instruction starts, or the end of the code array.
pub open spec fn on_boundary(positions: Seq<u32>, code_len: u32, off: u32) -> bool {
    off == code_len || exists|i: int| 0 <= i < positions.len() && positions[i] == off
}

/// `Label(id)` stands in `code` after exactly `slot` real instructions.
pub open spec fn placed_at(code: Seq<Instruction>, id: u32, slot: int) -> bool {
    exists|q: int|
        0 <= q < code.len() && code[q] == Instruction::Label(Label(id)) && real_insns(code.subrange(0, q)).len() == slot
}

proof fn lemma_placed_push(code: Seq<Instruction>, id: u32, slot: int, x: Instruction)
    requires
        placed_at(code, id, slot),
    ensures
        placed_at(code.push(x), id, slot),
{
    let q = choose|q: int|
        0 <= q < code.len() && code[q] == Instruction::Label(Label(id)) && real_insns(code.subrange(0, q)).len() == slot;
    assert(code.push(x).subrange(0, q) =~= code.subrange(0, q));
    assert(code.push(x)[q] == code[q]);
}

/// `Label(id)` stands right before the real instruction that starts at
/// offset `off`, or after the last one when `off` is the code's length.
pub open spec fn label_at_offset(code: Seq<Instruction>, positions: Seq<u32>, code_len: u32, id: u32, off: u32) -> bool {
    exists|slot: int| #[trigger] placed_at(code, id, slot) && 0 <= slot <= positions.len() && (if slot < positions.len() {
        positions[slot] == off
    } else {
        off == code_len
    })
}

/// `LineNumber(line)` stands in `code` after exactly `slot` real instructions.
pub open spec fn line_placed_at(code: Seq<Instruction>, line: u16, slot: int) -> bool {
    exists|q: int|
        0 <= q < code.len() && code[q] == Instruction::LineNumber(line) && real_insns(code.subrange(0, q)).len() == slot
}

proof fn lemma_line_placed_push(code: Seq<Instruction>, line: u16, slot: int, x: Instruction)
    requires
        line_placed_at(code, line, slot),
    ensures
        line_placed_at(code.push(x), line, slot),
{
    let q = choose|q: int|
        0 <= q < code.len() && code[q] == Instruction::LineNumber(line) && real_insns(code.subrange(0, q)).len() == slot;
    assert(code.push(x).subrange(0, q) =~= code.subrange(0, q));
    assert(code.push(x)[q] == code[q]);
}

/// `LineNumber(line)` stands right before the real instruction at offset
/// `off`, or after the last one when `off` is the code's length.
pub open spec fn line_at_offset(code: Seq<Instruction>, positions: Seq<u32>, code_len: u32, line: u16, off: u32) -> bool {
    exists|slot: int| #[trigger] line_placed_at(code, line, slot) && 0 <= slot <= positions.len() && (if slot < positions.len() {
        positions[slot] == off
    } else {
        off == code_len
    })
}

/// The slot of the instruction at byte offset `off`: its index, or the
/// number of instructions for the end of the code array.
fn slot_of(positions: &Vec<u32>, code_len: u32, off: u32) -> (r: Option<usize>)
    ensures
        r is Some ==> r->Some_0 <= positions@.len() && (if r->Some_0 < positions@.len() {
            positions@[r->Some_0 as int] == off
        } else {
            off == code_len
        }),
        r is None ==> off != code_len && forall|k: int| 0 <= k < positions@.len() ==> positions@[k] != off,
{
    if off == code_len {
        return Some(positions.len());
    }
    let mut i: usize = 0;
    while i < positions.len()
        invariant
            i <= positions@.len(),
            forall|k: int| 0 <= k < i ==> positions@[k] != off,
        decreases positions@.len() - i,
    {
        if positions[i] == off {
            return Some(i);
        }
        i = i + 1;
    }
    None
}

/// Puts a `Label` before the instruction each label marks and a `LineNumber`
/// before the instruction each line starts at. Fails when a label or a line
/// falls inside an instruction.
pub fn place_pseudo(
    mut insns: Vec<Instruction>,
    positions: &Vec<u32>,
    code_len: u32,
    offsets: &Vec<u32>,
    lines: &Vec<(u32, u16)>,
) -> (r: Result<Vec<Instruction>, Error>)
    requires
        insns@.len() == positions@.len(),
        insns@.len() < u32::MAX,
        offsets@.len() <= u32::MAX,
        forall|i: int| 0 <= i < insns@.len() ==> !(#[trigger] insns@[i]).is_pseudo(),
        forall|i: int| 0 <= i < insns@.len() ==> #[trigger] refs_below(insns@[i], offsets@.len() as nat),
    ensures
        r is Ok ==> labels_placed(r->Ok_0@, offsets@.len()),
        r is Ok ==> real_insns(r->Ok_0@) == insns@,
        r is Ok ==> forall|j: int| 0 <= j < lines@.len() ==> #[trigger] line_at_offset(r->Ok_0@, positions@, code_len, lines@[j].1, lines@[j].0),
        r is Ok ==> forall|id: u32| (id as int) < offsets@.len() ==> #[trigger] label_at_offset(r->Ok_0@, positions@, code_len, id, offsets@[id as int]),
        r is Ok <==> (forall|k: int| 0 <= k < offsets@.len() ==> on_boundary(positions@, code_len, #[trigger] offsets@[k]))
            && (forall|k: int| 0 <= k < lines@.len() ==> on_boundary(positions@, code_len, #[trigger] lines@[k].0)),
        r is Err ==> r == Err::<Vec<Instruction>, Error>(Error::Invalid("label offset")),
{
    let n = insns.len();
    let mut at: Vec<usize> = Vec::new();
    let mut i: usize = 0;
    while i < offsets.len()
        invariant
            positions@.len() == n,
            i <= offsets@.len(),
            at@.len() == i,
            forall|k: int| 0 <= k < i ==> #[trigger] at@[k] <= n,
            forall|k: int| 0 <= k < i ==> on_boundary(positions@, code_len, #[trigger] offsets@[k]),
            forall|k: int| 0 <= k < i ==> (if #[trigger] at@[k] < positions@.len() { positions@[at@[k] as int] == offsets@[k] } else { offsets@[k] == code_len }),
        decreases offsets@.len() - i,
    {
        match slot_of(positions, code_len, offsets[i]) {
            Some(k) => {
                proof {
                    if k < positions@.len() {
                        assert(positions@[k as int] == offsets@[i as int]);
                    }
                }
                at.push(k);
            },
            None => {
                assert(!on_boundary(positions@, code_len, offsets@[i as int]));
                return Err(Error::Invalid("label offset"));
            },
        }
        i = i + 1;
    }
    let mut line_at: Vec<usize> = Vec::new();
    let mut i: usize = 0;
    while i < lines.len()
        invariant
            i <= lines@.len(),
            line_at@.len() == i,
            positions@.len() == n,
            at@.len() == offsets@.len(),
            forall|k: int| 0 <= k < at@.len() ==> #[trigger] at@[k] <= n && (if at@[k] < positions@.len() { positions@[at@[k] as int] == offsets@[k] } else { offsets@[k] == code_len }),
            forall|k: int| 0 <= k < offsets@.len() ==> on_boundary(positions@, code_len, #[trigger] offsets@[k]),
            forall|k: int| 0 <= k < i ==> on_boundary(positions@, code_len, #[trigger] lines@[k].0),
            forall|q: int| 0 <= q < line_at@.len() ==> #[trigger] line_at@[q] <= n && (if line_at@[q] < positions@.len() { positions@[line_at@[q] as int] == lines@[q].0 } else { lines@[q].0 == code_len }),
        decreases lines@.len() - i,
    {
        match slot_of(positions, code_len, lines[i].0) {
            Some(k) => {
                proof {
                    if k < positions@.len() {
                        assert(positions@[k as int] == lines@[i as int].0);
                    }
                }
                line_at.push(k);
            },
            None => {
                assert(!on_boundary(positions@, code_len, lines@[i as int].0));
                return Err(Error::Invalid("label offset"));
            },
        }
        i = i + 1;
    }
    // The instructions in reverse, so that each can be moved out in turn.
    let ghost orig = insns@;
    let mut rev: Vec<Instruction> = Vec::new();
    while insns.len() > 0
        invariant
            insns@.len() + rev@.len() == orig.len(),
            insns@ == orig.subrange(0, insns@.len() as int),
            forall|j: int| 0 <= j < rev@.len() ==> #[trigger] rev@[j] == orig[orig.len() - 1 - j],
        decreases insns@.len(),
    {
        let x = insns.pop().unwrap();
        rev.push(x);
    }
    let mut out: Vec<Instruction> = Vec::new();
    let mut k: usize = 0;
    while k <= n
        invariant
            n == orig.len(),
            n < u32::MAX,
            line_at@.len() == lines@.len(),
            rev@.len() == n - k || (k == n + 1 && rev@.len() == 0),
            real_insns(out@) == orig.subrange(0, if k <= n { k as int } else { n as int }),
            forall|j: int| 0 <= j < rev@.len() ==> #[trigger] rev@[j] == orig[n - 1 - j],
            at@.len() == offsets@.len(),
            offsets@.len() <= u32::MAX,
            forall|i: int| 0 <= i < orig.len() ==> !(#[trigger] orig[i]).is_pseudo(),
            forall|i: int| 0 <= i < orig.len() ==> #[trigger] refs_below(orig[i], offsets@.len() as nat),
            k <= n + 1,
            forall|i: int| 0 <= i < out@.len() && #[trigger] out@[i] is Label ==> {
                let id = out@[i]->Label_0.0 as int;
                id < at@.len() && at@[id] < k
            },
            forall|i: int, j: int|
                0 <= i < out@.len() && 0 <= j < out@.len() && out@[i] is Label && #[trigger] out@[i] == #[trigger] out@[j] ==> i == j,
            forall|id: u32| (id as int) < at@.len() && at@[id as int] < k ==> #[trigger] label_present(out@, id),
            forall|id: u32| (id as int) < at@.len() && at@[id as int] < k ==> #[trigger] placed_at(out@, id, at@[id as int] as int),
            forall|q: int| 0 <= q < line_at@.len() && line_at@[q] < k ==> #[trigger] line_placed_at(out@, lines@[q].1, line_at@[q] as int),
            forall|q: int| 0 <= q < line_at@.len() ==> #[trigger] line_at@[q] <= n && (if line_at@[q] < positions@.len() { positions@[line_at@[q] as int] == lines@[q].0 } else { lines@[q].0 == code_len }),
            positions@.len() == n,
            forall|k: int| 0 <= k < at@.len() ==> #[trigger] at@[k] <= n && (if at@[k] < positions@.len() { positions@[at@[k] as int] == offsets@[k] } else { offsets@[k] == code_len }),
            forall|i: int| 0 <= i < out@.len() ==> #[trigger] refs_below(out@[i], offsets@.len() as nat),
        decreases n + 1 - k,
    {
        let mut id: usize = 0;
        while id < at.len()
            invariant
                at@.len() == offsets@.len(),
                offsets@.len() <= u32::MAX,
                k <= n,
                n < u32::MAX,
                n == orig.len(),
                real_insns(out@) == orig.subrange(0, k as int),
                id <= at@.len(),
                forall|i: int| 0 <= i < out@.len() && #[trigger] out@[i] is Label ==> {
                    let m = out@[i]->Label_0.0 as int;
                    m < at@.len() && (at@[m] < k || (at@[m] == k && m < id))
                },
                forall|i: int, j: int|
                    0 <= i < out@.len() && 0 <= j < out@.len() && out@[i] is Label && #[trigger] out@[i] == #[trigger] out@[j] ==> i == j,
                forall|m: u32| (m as int) < at@.len() && (at@[m as int] < k || (at@[m as int] == k && (m as int) < id)) ==> #[trigger] label_present(out@, m),
                forall|m: u32| (m as int) < at@.len() && (at@[m as int] < k || (at@[m as int] == k && (m as int) < id)) ==> #[trigger] placed_at(out@, m, at@[m as int] as int),
                line_at@.len() == lines@.len(),
                forall|q: int| 0 <= q < line_at@.len() && line_at@[q] < k ==> #[trigger] line_placed_at(out@, lines@[q].1, line_at@[q] as int),
                forall|i: int| 0 <= i < out@.len() ==> #[trigger] refs_below(out@[i], offsets@.len() as nat),
            decreases at@.len() - id,
        {
            if at[id] == k {
                let ghost before = out@;
                let ghost me = Instruction::Label(Label(id as u32));
                out.push(Instruction::Label(Label(id as u32)));
                proof {
                    lemma_real_push(before, me);
                    assert forall|q: int| 0 <= q < line_at@.len() && line_at@[q] < k implies #[trigger] line_placed_at(out@, lines@[q].1, line_at@[q] as int) by {
                        lemma_line_placed_push(before, lines@[q].1, line_at@[q] as int, me);
                    }
                    assert forall|m: u32| (m as int) < at@.len() && (at@[m as int] < k || (at@[m as int] == k && (m as int) < id + 1)) implies #[trigger] placed_at(out@, m, at@[m as int] as int) by {
                        if m as int == id {
                            let q = before.len() as int;
                            assert(out@.subrange(0, q) =~= before);
                            assert(out@[q] == Instruction::Label(Label(m)));
                            assert(real_insns(before) == orig.subrange(0, k as int));
                            assert(k <= orig.len());
                            assert(orig.subrange(0, k as int).len() == k);
                            assert(at@[m as int] == k);
                            assert(real_insns(out@.subrange(0, q)).len() == at@[m as int]);
                        } else {
                            lemma_placed_push(before, m, at@[m as int] as int, me);
                        }
                    }
                    assert forall|i: int, j: int|
                        0 <= i < out@.len() && 0 <= j < out@.len() && out@[i] is Label && #[trigger] out@[i] == #[trigger] out@[j] implies i == j by {
                        if i < before.len() && j == before.len() {
                            assert(before[i] == me);
                        } else if j < before.len() && i == before.len() {
                            assert(before[j] == me);
                        }
                    }
                    assert forall|m: u32| (m as int) < at@.len() && (at@[m as int] < k || (at@[m as int] == k && (m as int) < id + 1)) implies #[trigger] label_present(out@, m) by {
                        if m as int == id {
                            assert(out@[before.len() as int] == Instruction::Label(Label(m)));
                        } else {
                            assert(label_present(before, m));
                            let i = choose|i: int| 0 <= i < before.len() && before[i] == Instruction::Label(Label(m));
                            assert(out@[i] == Instruction::Label(Label(m)));
                        }
                    }
                }
            }
            id = id + 1;
        }
        let mut j: usize = 0;
        while j < lines.len()
            invariant
                line_at@.len() == lines@.len(),
                k <= n,
                n < u32::MAX,
                n == orig.len(),
                real_insns(out@) == orig.subrange(0, k as int),
                j <= lines@.len(),
                forall|i: int| 0 <= i < out@.len() && #[trigger] out@[i] is Label ==> {
                    let m = out@[i]->Label_0.0 as int;
                    m < at@.len() && at@[m] <= k
                },
                forall|i: int, j: int|
                    0 <= i < out@.len() && 0 <= j < out@.len() && out@[i] is Label && #[trigger] out@[i] == #[trigger] out@[j] ==> i == j,
                forall|m: u32| (m as int) < at@.len() && at@[m as int] <= k ==> #[trigger] label_present(out@, m),
                forall|m: u32| (m as int) < at@.len() && at@[m as int] <= k ==> #[trigger] placed_at(out@, m, at@[m as int] as int),
                forall|q: int| 0 <= q < line_at@.len() && (line_at@[q] < k || (line_at@[q] == k && q < j)) ==> #[trigger] line_placed_at(out@, lines@[q].1, line_at@[q] as int),
                forall|i: int| 0 <= i < out@.len() ==> #[trigger] refs_below(out@[i], offsets@.len() as nat),
            decreases lines@.len() - j,
        {
            if line_at[j] == k {
                let ghost before = out@;
                out.push(Instruction::LineNumber(lines[j].1));
                proof {
                    lemma_real_push(before, Instruction::LineNumber(lines@[j as int].1));
                    assert forall|q: int| 0 <= q < line_at@.len() && (line_at@[q] < k || (line_at@[q] == k && q < j + 1)) implies #[trigger] line_placed_at(out@, lines@[q].1, line_at@[q] as int) by {
                        if q == j {
                            let w = before.len() as int;
                            assert(out@.subrange(0, w) =~= before);
                            assert(out@[w] == Instruction::LineNumber(lines@[q].1));
                            assert(real_insns(before) == orig.subrange(0, k as int));
                            assert(orig.subrange(0, k as int).len() == k);
                        } else {
                            lemma_line_placed_push(before, lines@[q].1, line_at@[q] as int, Instruction::LineNumber(lines@[j as int].1));
                        }
                    }
                    assert forall|m: u32| (m as int) < at@.len() && at@[m as int] <= k implies #[trigger] placed_at(out@, m, at@[m as int] as int) by {
                        lemma_placed_push(before, m, at@[m as int] as int, Instruction::LineNumber(lines@[j as int].1));
                    }
                    assert forall|m: u32| (m as int) < at@.len() && at@[m as int] <= k implies #[trigger] label_present(out@, m) by {
                        assert(label_present(before, m));
                        let i = choose|i: int| 0 <= i < before.len() && before[i] == Instruction::Label(Label(m));
                        assert(out@[i] == Instruction::Label(Label(m)));
                    }
                }
            }
            j = j + 1;
        }
        if k < n {
            let ghost before = out@;
            let insn = rev.pop().unwrap();
            assert(insn == orig[k as int]);
            out.push(insn);
            proof {
                lemma_real_push(before, insn);
                assert forall|q: int| 0 <= q < line_at@.len() && line_at@[q] <= k implies #[trigger] line_placed_at(out@, lines@[q].1, line_at@[q] as int) by {
                    lemma_line_placed_push(before, lines@[q].1, line_at@[q] as int, insn);
                }
                assert forall|m: u32| (m as int) < at@.len() && at@[m as int] <= k implies #[trigger] placed_at(out@, m, at@[m as int] as int) by {
                    lemma_placed_push(before, m, at@[m as int] as int, insn);
                }
                assert(orig.subrange(0, k + 1) =~= orig.subrange(0, k as int).push(insn));
                assert forall|m: u32| (m as int) < at@.len() && at@[m as int] <= k implies #[trigger] label_present(out@, m) by {
                    assert(label_present(before, m));
                    let i = choose|i: int| 0 <= i < before.len() && before[i] == Instruction::Label(Label(m));
                    assert(out@[i] == Instruction::Label(Label(m)));
                }
            }
        }
        k = k + 1;
    }
    proof {
        assert forall|j: int| 0 <= j < lines@.len() implies #[trigger] line_at_offset(out@, positions@, code_len, lines@[j].1, lines@[j].0) by {
            assert(line_at@[j] <= n);
            assert(line_placed_at(out@, lines@[j].1, line_at@[j] as int));
        }
        assert forall|m: u32| (m as int) < offsets@.len() implies #[trigger] label_at_offset(out@, positions@, code_len, m, offsets@[m as int]) by {
            assert(at@[m as int] <= n);
            assert(placed_at(out@, m, at@[m as int] as int));
        }
    }
    Ok(out)
}

/// Two variables describe the same slot over the same range under the same name.
pub open spec fn same_key(a: LocalVariable, b: LocalVariable) -> bool {
    a.start == b.start && a.end == b.end && a.index == b.index && a.name@ == b.name@
}

/// No two variables share a key.
pub open spec fn keys_unique(vs: Seq<LocalVariable>) -> bool {
    forall|i: int, j: int| 0 <= i < j < vs.len() ==> !same_key(vs[i], vs[j])
}

/// The variable has the key (start, end, slot, name).
pub open spec fn has_key(v: LocalVariable, start: Label, end: Label, index: u16, name: Seq<u8>) -> bool {
    v.start == start && v.end == end && v.index == index && v.name@ == name
}

/// `w` is `v` unchanged, or, when `v` has the key, `v` with its signature
/// (or descriptor) set to `text` and all else kept.
pub open spec fn kept_or_filled(
    v: LocalVariable,
    w: LocalVariable,
    start: Label,
    end: Label,
    index: u16,
    name: Seq<u8>,
    text: Seq<u8>,
    is_signature: bool,
) -> bool {
    if has_key(v, start, end, index, name) {
        &&& w.start == v.start && w.end == v.end && w.index == v.index && w.name == v.name
        &&& if is_signature {
            w.descriptor == v.descriptor && w.signature is Some && w.signature->Some_0@ == text
        } else {
            w.signature == v.signature && w.descriptor is Some && w.descriptor->Some_0@ == text
        }
    } else {
        w == v
    }
}

/// Records a LocalVariableTable entry (`is_signature` false) or a
/// LocalVariableTypeTable entry (true): the variable with the same key
/// takes the descriptor or signature, or a new variable is added.
pub fn merge_local(
    vars: &mut Vec<LocalVariable>,
    start: Label,
    end: Label,
    index: u16,
    name: Vec<u8>,
    text: Vec<u8>,
    is_signature: bool,
)
    requires
        keys_unique(old(vars)@),
    ensures
        keys_unique(final(vars)@),
        exists|i: int|
            0 <= i < final(vars)@.len() && final(vars)@[i].start == start && final(vars)@[i].end
                == end && final(vars)@[i].index == index && final(vars)@[i].name@ == name@ && (if is_signature {
                final(vars)@[i].signature is Some && final(vars)@[i].signature->Some_0@ == text@
            } else {
                final(vars)@[i].descriptor is Some && final(vars)@[i].descriptor->Some_0@ == text@
            }),
        final(vars)@.len() <= old(vars)@.len() + 1,
        forall|n: nat|
            vars_below(old(vars)@, n) && (start.0 as nat) < n && (end.0 as nat) < n ==> #[trigger] vars_below(final(vars)@, n),
        forall|j: int|
            0 <= j < old(vars)@.len() ==> #[trigger] kept_or_filled(old(vars)@[j], final(vars)@[j], start, end, index, name@, text@, is_signature),
        (exists|j: int| 0 <= j < old(vars)@.len() && has_key(old(vars)@[j], start, end, index, name@))
            ==> final(vars)@.len() == old(vars)@.len(),
        !(exists|j: int| 0 <= j < old(vars)@.len() && has_key(old(vars)@[j], start, end, index, name@))
            ==> final(vars)@.len() == old(vars)@.len() + 1 && has_key(final(vars)@.last(), start, end, index, name@)
            && (if is_signature {
                final(vars)@.last().descriptor is None && final(vars)@.last().signature == Some(text)
            } else {
                final(vars)@.last().descriptor == Some(text) && final(vars)@.last().signature is None
            }),
{
    let mut i: usize = 0;
    while i < vars.len()
        invariant
            vars@ == old(vars)@,
            keys_unique(vars@),
            i <= vars@.len(),
            forall|k: int|
                0 <= k < i ==> !(vars@[k].start == start && vars@[k].end == end && vars@[k].index
                    == index && vars@[k].name@ == name@),
        decreases vars@.len() - i,
    {
        let v = &vars[i];
        if v.start == start && v.end == end && v.index == index && bytes_equal(&v.name, &name) {
            let mut v = vars.remove(i);
            if is_signature {
                v.signature = Some(text);
            } else {
                v.descriptor = Some(text);
            }
            vars.insert(i, v);
            proof {
                assert(vars@ =~= old(vars)@.update(i as int, v));
                assert(same_key(v, old(vars)@[i as int]));
                assert forall|a: int, b: int| 0 <= a < b < vars@.len() implies !same_key(vars@[a], vars@[b]) by {
                    assert(same_key(vars@[a], old(vars)@[a]));
                    assert(same_key(vars@[b], old(vars)@[b]));
                    assert(!same_key(old(vars)@[a], old(vars)@[b]));
                }
                assert(vars@[i as int] == v);
                assert forall|j: int| 0 <= j < old(vars)@.len() implies #[trigger] kept_or_filled(old(vars)@[j], vars@[j], start, end, index, name@, text@, is_signature) by {
                    if j != i {
                        assert(!has_key(old(vars)@[j], start, end, index, name@)) by {
                            if has_key(old(vars)@[j], start, end, index, name@) {
                                if j < i {
                                    assert(!same_key(old(vars)@[j], old(vars)@[i as int]));
                                } else {
                                    assert(!same_key(old(vars)@[i as int], old(vars)@[j]));
                                }
                            }
                        }
                    }
                }
                assert forall|n: nat| vars_below(old(vars)@, n) && (start.0 as nat) < n && (end.0 as nat) < n implies #[trigger] vars_below(vars@, n) by {
                    assert forall|k: int| 0 <= k < vars@.len() implies ((#[trigger] vars@[k]).start.0 as nat) < n && (vars@[k].end.0 as nat) < n by {
                        assert(same_key(vars@[k], old(vars)@[k]));
                    }
                }
            }
            return;
        }
        i = i + 1;
    }
    let v = if is_signature {
        LocalVariable { start, end, name, descriptor: None, signature: Some(text), index }
    } else {
        LocalVariable { start, end, name, descriptor: Some(text), signature: None, index }
    };
    let ghost before = vars@;
    vars.push(v);
    assert(vars@[vars@.len() - 1] == v);
    assert forall|j: int| 0 <= j < old(vars)@.len() implies #[trigger] kept_or_filled(old(vars)@[j], vars@[j], start, end, index, name@, text@, is_signature) by {
        assert(vars@[j] == before[j]);
    }
    assert forall|n: nat| vars_below(old(vars)@, n) && (start.0 as nat) < n && (end.0 as nat) < n implies #[trigger] vars_below(vars@, n) by {
        assert forall|k: int| 0 <= k < vars@.len() implies ((#[trigger] vars@[k]).start.0 as nat) < n && (vars@[k].end.0 as nat) < n by {
            if k < before.len() {
                assert(vars@[k] == before[k]);
            }
        }
    }
}

/// The string at `idx` in the pool.
fn utf8_at(cp: &MapCp, idx: u16) -> (r: Result<Vec<u8>, Error>)
    ensures
        r is Ok <==> cp.model().contains_key(idx) && cp.model()[idx] is UTF8,
        r is Ok ==> cp.model()[idx] == EntryModel::UTF8(r->Ok_0@),
        r is Err ==> r->Err_0 is Invalid,
{
    match cp.read_raw(idx) {
        Some(RawConstantEntry::UTF8(b)) => Ok(b),
        _ => Err(Error::Invalid("constant pool string")),
    }
}

fn is_named(name: &Vec<u8>, s: &str) -> (r: bool)
    ensures
        r == (name@ == s.spec_bytes()),
{
    let b = vstd::slice::slice_to_vec(s.as_bytes());
    bytes_equal(name, &b)
}

/// A label for a byte offset, failing when no more labels can be minted.
fn label_for(labels: &mut Labeler, off: u32) -> (r: Result<Label, Error>)
    requires
        old(labels).wf(),
    ensures
        final(labels).wf(),
        labels_grow(*old(labels), *final(labels)),
        r is Ok ==> (r->Ok_0.0 as int) < final(labels).offsets@.len() && final(labels).offsets@[r->Ok_0.0 as int] == off,
        r is Err ==> r->Err_0 is Invalid,
{
    if labels.offsets.len() >= u32::MAX as usize {
        return Err(Error::Invalid("too many labels"));
    }
    Ok(labels.get_label(off))
}

/// How an attribute of this name is read: 0 a LineNumberTable, 1 a
/// LocalVariableTable, 2 a LocalVariableTypeTable, 3 and 4 visible and
/// invisible type annotations, 5 any other attribute, kept as it is.
pub open spec fn attr_kind(name: Seq<u8>) -> int {
    if name == "LineNumberTable".spec_bytes() {
        0
    } else if name == "LocalVariableTable".spec_bytes() {
        1
    } else if name == "LocalVariableTypeTable".spec_bytes() {
        2
    } else if name == "RuntimeVisibleTypeAnnotations".spec_bytes() {
        3
    } else if name == "RuntimeInvisibleTypeAnnotations".spec_bytes() {
        4
    } else {
        5
    }
}

/// The length field of the attribute at `p`.
pub open spec fn attr_len(s: Seq<u8>, p: int) -> int {
    be32(s[p + 2], s[p + 3], s[p + 4], s[p + 5])
}

/// Where attribute `i` of a table whose first attribute is at `b` starts.
pub open spec fn attr_pos(s: Seq<u8>, b: int, i: nat) -> int
    decreases i,
{
    if i == 0 {
        b
    } else {
        let p = attr_pos(s, b, (i - 1) as nat);
        p + 6 + attr_len(s, p)
    }
}

/// An attribute of the result as a kind, a name and a body.
pub open spec fn attr_model(a: CodeAttribute) -> (int, Seq<u8>, Seq<u8>) {
    match a {
        CodeAttribute::VisibleTypeAnnotations(b) => (3, Seq::empty(), b@),
        CodeAttribute::InvisibleTypeAnnotations(b) => (4, Seq::empty(), b@),
        CodeAttribute::Raw { name, data } => (5, name@, data@),
        CodeAttribute::LocalVariables(_) => (1, Seq::empty(), Seq::empty()),
    }
}

/// The attributes of the result other than the local variables, as models.
pub open spec fn kept_models(attrs: Seq<CodeAttribute>) -> Seq<(int, Seq<u8>, Seq<u8>)>
    decreases attrs.len(),
{
    if attrs.len() == 0 {
        Seq::empty()
    } else if attrs.last() is LocalVariables {
        kept_models(attrs.drop_last())
    } else {
        kept_models(attrs.drop_last()).push(attr_model(attrs.last()))
    }
}

/// The first `i` attributes of the table at `b` that are kept as they are:
/// type annotations by kind and body, every other unknown attribute (a
/// StackMapTable among them) by name and body, in order.
pub open spec fn kept_attrs(s: Seq<u8>, b: int, i: nat, model: Map<u16, EntryModel>) -> Seq<(int, Seq<u8>, Seq<u8>)>
    decreases i,
{
    if i == 0 {
        Seq::empty()
    } else {
        let p = attr_pos(s, b, (i - 1) as nat);
        let name = model[be16(s[p], s[p + 1]) as u16]->UTF8_0;
        let k = attr_kind(name);
        let body = s.subrange(p + 6, p + 6 + attr_len(s, p));
        let rest = kept_attrs(s, b, (i - 1) as nat, model);
        if k >= 3 {
            rest.push((k, if k == 5 { name } else { Seq::empty() }, body))
        } else {
            rest
        }
    }
}

/// The first `n` (offset, line) rows of a LineNumberTable body.
pub open spec fn line_rows(b: Seq<u8>, n: nat) -> Seq<(u32, u16)>
    decreases n,
{
    if n == 0 {
        Seq::empty()
    } else {
        let q = 2 + 4 * (n - 1);
        line_rows(b, (n - 1) as nat).push((be16(b[q], b[q + 1]) as u32, be16(b[q + 2], b[q + 3]) as u16))
    }
}

/// The rows of the LineNumberTables among the first `i` attributes of the
/// table at `b`, in order.
pub open spec fn line_entries(s: Seq<u8>, b: int, i: nat, model: Map<u16, EntryModel>) -> Seq<(u32, u16)>
    decreases i,
{
    if i == 0 {
        Seq::empty()
    } else {
        let p = attr_pos(s, b, (i - 1) as nat);
        let name = model[be16(s[p], s[p + 1]) as u16]->UTF8_0;
        let body = s.subrange(p + 6, p + 6 + attr_len(s, p));
        let rest = line_entries(s, b, (i - 1) as nat, model);
        if attr_kind(name) == 0 {
            rest + line_rows(body, be16(body[0], body[1]) as nat)
        } else {
            rest
        }
    }
}

/// A local-variable table row with its names resolved: start offset, end
/// offset, slot, name, and descriptor or signature.
pub type LocalRow = (int, int, u16, Seq<u8>, Seq<u8>);

/// The first `n` rows of a LocalVariableTable or LocalVariableTypeTable body.
pub open spec fn local_rows(b: Seq<u8>, n: nat, model: Map<u16, EntryModel>) -> Seq<LocalRow>
    decreases n,
{
    if n == 0 {
        Seq::empty()
    } else {
        let q = 2 + 10 * (n - 1);
        let start = be16(b[q], b[q + 1]);
        local_rows(b, (n - 1) as nat, model).push((
            start,
            start + be16(b[q + 2], b[q + 3]),
            be16(b[q + 8], b[q + 9]) as u16,
            model[be16(b[q + 4], b[q + 5]) as u16]->UTF8_0,
            model[be16(b[q + 6], b[q + 7]) as u16]->UTF8_0,
        ))
    }
}

/// The rows of the tables of kind `kind` (1 for descriptors, 2 for
/// signatures) among the first `i` attributes of the table at `b`.
pub open spec fn local_entries(s: Seq<u8>, b: int, i: nat, kind: int, model: Map<u16, EntryModel>) -> Seq<LocalRow>
    decreases i,
{
    if i == 0 {
        Seq::empty()
    } else {
        let p = attr_pos(s, b, (i - 1) as nat);
        let name = model[be16(s[p], s[p + 1]) as u16]->UTF8_0;
        let body = s.subrange(p + 6, p + 6 + attr_len(s, p));
        let rest = local_entries(s, b, (i - 1) as nat, kind, model);
        if attr_kind(name) == kind {
            rest + local_rows(body, be16(body[0], body[1]) as nat, model)
        } else {
            rest
        }
    }
}

/// Some variable has the row's key, its labels marking the row's offsets
/// in `offs`, and has the descriptor (or the signature) set.
pub open spec fn row_held(vars: Seq<LocalVariable>, row: LocalRow, offs: Seq<u32>, is_signature: bool) -> bool {
    exists|j: int|
        0 <= j < vars.len() && #[trigger] offs[vars[j].start.0 as int] == row.0 && offs[vars[j].end.0 as int] == row.1
            && vars[j].index == row.2 && vars[j].name@ == row.3 && (if is_signature {
            vars[j].signature is Some
        } else {
            vars[j].descriptor is Some
        })
}

/// Where the attribute count of the Code attribute body at `p` stands:
/// after the code array and the exception table.
pub open spec fn attrs_start(s: Seq<u8>, p: int) -> int {
    let tb = p + 8 + be32(s[p + 4], s[p + 5], s[p + 6], s[p + 7]);
    tb + 2 + 8 * be16(s[tb], s[tb + 1])
}

/// Reads a LineNumberTable body into (offset, line) pairs.
fn read_line_numbers(body: Vec<u8>, lines: &mut Vec<(u32, u16)>) -> (r: Result<(), Error>)
    ensures
        r is Err ==> r->Err_0 is Invalid || r->Err_0 is Truncated,
        r is Ok ==> body@.len() >= 2 && final(lines)@ == old(lines)@ + line_rows(body@, be16(body@[0], body@[1]) as nat),
{
    let ghost b = body@;
    let mut br = ByteReader::new(body);
    let n = br.read_u16()?;
    let mut i: u16 = 0;
    assert(old(lines)@ + line_rows(b, 0) =~= old(lines)@);
    while i < n
        invariant
            br.wf(),
            br.bytes@ == b,
            i <= n,
            br.pos == 2 + 4 * i,
            n == be16(b[0], b[1]),
            lines@ == old(lines)@ + line_rows(b, i as nat),
        decreases n - i,
    {
        let pc = br.read_u16()?;
        let line = br.read_u16()?;
        lines.push((pc as u32, line));
        proof {
            assert(lines@ =~= old(lines)@ + line_rows(b, (i + 1) as nat));
        }
        i = i + 1;
    }
    if br.pos != br.bytes.len() {
        return Err(Error::Invalid("attribute length"));
    }
    Ok(())
}

proof fn lemma_row_kept(
    v0: Seq<LocalVariable>,
    v1: Seq<LocalVariable>,
    row: LocalRow,
    o0: Seq<u32>,
    o1: Seq<u32>,
    b: bool,
    start: Label,
    end: Label,
    index: u16,
    name: Seq<u8>,
    text: Seq<u8>,
    is_signature: bool,
)
    requires
        row_held(v0, row, o0, b),
        vars_below(v0, o0.len()),
        o0.len() <= o1.len(),
        forall|q: int| 0 <= q < o0.len() ==> o1[q] == o0[q],
        v0.len() <= v1.len(),
        forall|j: int| 0 <= j < v0.len() ==> #[trigger] kept_or_filled(v0[j], v1[j], start, end, index, name, text, is_signature),
    ensures
        row_held(v1, row, o1, b),
{
    let j = choose|j: int|
        0 <= j < v0.len() && #[trigger] o0[v0[j].start.0 as int] == row.0 && o0[v0[j].end.0 as int] == row.1
            && v0[j].index == row.2 && v0[j].name@ == row.3 && (if b {
            v0[j].signature is Some
        } else {
            v0[j].descriptor is Some
        });
    assert(kept_or_filled(v0[j], v1[j], start, end, index, name, text, is_signature));
    assert(((v0[j]).start.0 as nat) < o0.len() && (v0[j].end.0 as nat) < o0.len());
    assert(o1[v1[j].start.0 as int] == row.0);
}

/// Reads a LocalVariableTable or LocalVariableTypeTable body, merging its
/// entries into `vars`.
fn read_local_table(
    body: Vec<u8>,
    is_signature: bool,
    cp: &MapCp,
    labels: &mut Labeler,
    vars: &mut Vec<LocalVariable>,
) -> (r: Result<(), Error>)
    requires
        old(labels).wf(),
        keys_unique(old(vars)@),
        vars_below(old(vars)@, old(labels).offsets@.len() as nat),
    ensures
        final(labels).wf(),
        labels_grow(*old(labels), *final(labels)),
        keys_unique(final(vars)@),
        vars_below(final(vars)@, final(labels).offsets@.len() as nat),
        r is Ok ==> forall|row: LocalRow, b: bool|
            row_held(old(vars)@, row, old(labels).offsets@, b) ==> #[trigger] row_held(final(vars)@, row, final(labels).offsets@, b),
        r is Ok ==> body@.len() >= 2 && forall|k: int|
            0 <= k < local_rows(body@, be16(body@[0], body@[1]) as nat, cp.model()).len() ==> #[trigger] row_held(
                final(vars)@,
                local_rows(body@, be16(body@[0], body@[1]) as nat, cp.model())[k],
                final(labels).offsets@,
                is_signature,
            ),
        r is Err ==> r->Err_0 is Invalid || r->Err_0 is Truncated,
{
    let ghost bb = body@;
    let mut br = ByteReader::new(body);
    let n = br.read_u16()?;
    let mut i: u16 = 0;
    while i < n
        invariant
            br.wf(),
            br.bytes@ == bb,
            i <= n,
            br.pos == 2 + 10 * i,
            n == be16(bb[0], bb[1]),
            labels.wf(),
            labels_grow(*old(labels), *labels),
            keys_unique(vars@),
            vars_below(vars@, labels.offsets@.len() as nat),
            forall|row: LocalRow, b: bool|
                row_held(old(vars)@, row, old(labels).offsets@, b) ==> #[trigger] row_held(vars@, row, labels.offsets@, b),
            forall|k: int|
                0 <= k < local_rows(bb, i as nat, cp.model()).len() ==> #[trigger] row_held(
                    vars@,
                    local_rows(bb, i as nat, cp.model())[k],
                    labels.offsets@,
                    is_signature,
                ),
        decreases n - i,
    {
        let start = br.read_u16()?;
        let len = br.read_u16()?;
        let name_idx = br.read_u16()?;
        let text_idx = br.read_u16()?;
        let index = br.read_u16()?;
        let name = utf8_at(cp, name_idx)?;
        let text = utf8_at(cp, text_idx)?;
        let ghost o_start = labels.offsets@;
        let ghost v_start = vars@;
        let s = label_for(labels, start as u32)?;
        let e = label_for(labels, start as u32 + len as u32)?;
        let ghost v0 = vars@;
        let ghost nm = name@;
        let ghost tx = text@;
        merge_local(vars, s, e, index, name, text, is_signature);
        proof {
            let n2 = labels.offsets@.len() as nat;
            assert forall|k: int| 0 <= k < v0.len() implies ((#[trigger] v0[k]).start.0 as nat) < n2 && (v0[k].end.0 as nat) < n2 by {}
            assert(vars_below(v0, n2));
            assert(vars_below(vars@, n2));
            let o1 = labels.offsets@;
            assert forall|row: LocalRow, b: bool| row_held(old(vars)@, row, old(labels).offsets@, b) implies #[trigger] row_held(vars@, row, o1, b) by {
                assert(row_held(v0, row, o_start, b));
                lemma_row_kept(v0, vars@, row, o_start, o1, b, s, e, index, nm, tx, is_signature);
            }
            let rows = local_rows(bb, (i + 1) as nat, cp.model());
            let q = 2 + 10 * (i as int);
            assert(rows.drop_last() == local_rows(bb, i as nat, cp.model()));
            assert forall|k: int| 0 <= k < rows.len() implies #[trigger] row_held(vars@, rows[k], o1, is_signature) by {
                if k < rows.len() - 1 {
                    assert(rows[k] == local_rows(bb, i as nat, cp.model())[k]);
                    assert(row_held(v0, rows[k], o_start, is_signature));
                    lemma_row_kept(v0, vars@, rows[k], o_start, o1, is_signature, s, e, index, nm, tx, is_signature);
                } else {
                    let w = choose|w: int|
                        0 <= w < vars@.len() && vars@[w].start == s && vars@[w].end == e && vars@[w].index == index
                            && vars@[w].name@ == nm && (if is_signature {
                            vars@[w].signature is Some && vars@[w].signature->Some_0@ == tx
                        } else {
                            vars@[w].descriptor is Some && vars@[w].descriptor->Some_0@ == tx
                        });
                    assert(o1[vars@[w].start.0 as int] == rows[k].0);
                }
            }
        }
        i = i + 1;
    }
    if br.pos != br.bytes.len() {
        return Err(Error::Invalid("attribute length"));
    }
    Ok(())
}

impl Code {
    /// Reads the Code attribute's body: `max_stack`, `max_locals`, the code
    /// array, the exception table and the attributes. Labels mark every
    /// position that something refers to; line numbers and local-variable
    /// tables become pseudo-instructions and one list of variables.
    pub fn read_from(cp: &mut MapCp, r: &mut ByteReader) -> (res: Result<Code, Error>)
        requires
            old(r).wf(),
        ensures
            final(r).wf(),
            final(r).bytes@ == old(r).bytes@,
            final(cp).model() == old(cp).model(),
            final(cp).filled() == old(cp).filled(),
            pending_extends(old(cp).pending(), final(cp).pending(), old(cp).model()),
            res is Ok ==> kept_models(res->Ok_0.attrs@) == kept_attrs(
                old(r).bytes@,
                attrs_start(old(r).bytes@, old(r).pos as int) + 2,
                be16(
                    old(r).bytes@[attrs_start(old(r).bytes@, old(r).pos as int)],
                    old(r).bytes@[attrs_start(old(r).bytes@, old(r).pos as int) + 1],
                ) as nat,
                old(cp).model(),
            ),
            res is Ok ==> every_label_placed(res->Ok_0.code@, res->Ok_0.catches@, res->Ok_0.attrs@),
            res is Ok ==> old(r).pos + 8 + be32(
                old(r).bytes@[old(r).pos + 4],
                old(r).bytes@[old(r).pos + 5],
                old(r).bytes@[old(r).pos + 6],
                old(r).bytes@[old(r).pos + 7],
            ) <= old(r).bytes@.len() && body_read(
                old(r).bytes@,
                old(r).pos as int,
                res->Ok_0.code@,
                res->Ok_0.catches@,
                res->Ok_0.attrs@,
                old(cp).model(),
            ),
            res is Ok ==> old(r).pos + 8 <= old(r).bytes@.len() && res->Ok_0.max_stack == crate::bytes::be16(
                old(r).bytes@[old(r).pos as int],
                old(r).bytes@[old(r).pos + 1],
            ) && res->Ok_0.max_locals == crate::bytes::be16(
                old(r).bytes@[old(r).pos + 2],
                old(r).bytes@[old(r).pos + 3],
            ),
            res is Err ==> res->Err_0 is Invalid || res->Err_0 is Truncated,
    {
        let max_stack = r.read_u16()?;
        let max_locals = r.read_u16()?;
        let code_len = r.read_u32()?;
        if code_len == u32::MAX {
            return Err(Error::Invalid("code length"));
        }
        let code = r.read_bytes(code_len as usize)?;
        let mut labels = Labeler::new();
        let mut cr = ByteReader::new(code);
        let mut insns: Vec<Instruction> = Vec::new();
        let mut positions: Vec<u32> = Vec::new();
        let ghost code_bytes = cr.bytes@;
        let ghost mut ends: Seq<int> = seq![0int];
        while cr.pos < cr.bytes.len()
            invariant
                r.wf(),
                r.bytes@ == old(r).bytes@,
                cr.wf(),
                cr.bytes@.len() == code_len,
                code_len < u32::MAX,
                labels.wf(),
                insns@.len() == positions@.len(),
                insns@.len() <= cr.pos,
                forall|i: int| 0 <= i < insns@.len() ==> !(#[trigger] insns@[i]).is_pseudo(),
                forall|i: int|
                    0 <= i < insns@.len() ==> #[trigger] refs_below(insns@[i], labels.offsets@.len() as nat),
                cp.model() == old(cp).model(),
                cp.filled() == old(cp).filled(),
                pending_extends(old(cp).pending(), cp.pending(), old(cp).model()),
                cr.bytes@ == code_bytes,
                ends.len() == insns@.len() + 1,
                ends[0] == 0,
                ends[insns@.len() as int] == cr.pos,
                forall|i: int| 0 <= i < insns@.len() ==> #[trigger] decoded_at(code_bytes, ends[i], ends[i + 1], insns@[i], old(cp).model(), labels.offsets@),
                forall|i: int| 0 <= i < insns@.len() ==> positions@[i] == ends[i],
            decreases cr.bytes@.len() - cr.pos,
        {
            let pos = cr.pos as u32;
            let ghost l0 = labels;
            let insn = decode_insn(&mut cr, cp, &mut labels)?;
            proof {
                assert forall|i: int| 0 <= i < insns@.len() implies #[trigger] refs_below(
                    insns@[i],
                    labels.offsets@.len() as nat,
                ) by {
                    lemma_refs_below_grow(insns@[i], l0.offsets@.len() as nat, labels.offsets@.len() as nat);
                }
            }
            let ghost prev_ends = ends;
            let ghost prev_insns = insns@;
            insns.push(insn);
            positions.push(pos);
            proof {
                ends = prev_ends.push(cr.pos as int);
                assert(decoded_at(code_bytes, pos as int, cr.pos as int, insn, old(cp).model(), labels.offsets@));
                assert forall|i: int| 0 <= i < insns@.len() implies #[trigger] decoded_at(
                    code_bytes,
                    ends[i],
                    ends[i + 1],
                    insns@[i],
                    old(cp).model(),
                    labels.offsets@,
                ) by {
                    if i < prev_insns.len() {
                        assert(insns@[i] == prev_insns[i]);
                        assert(ends[i] == prev_ends[i] && ends[i + 1] == prev_ends[i + 1]);
                        assert(decoded_at(code_bytes, ends[i], ends[i + 1], insns@[i], old(cp).model(), l0.offsets@));
                        lemma_decoded_at_grow(code_bytes, ends[i], ends[i + 1], insns@[i], old(cp).model(), l0.offsets@, labels.offsets@);
                    }
                }
            }
        }
        let ghost offs = labels.offsets@;
        proof {
            assert(decoded_run(code_bytes, insns@, old(cp).model(), ends, offs));
        }
        // Exception table.
        let ghost tb = r.pos as int;
        let n_catches = r.read_u16()?;
        let mut catches: Vec<Catch> = Vec::new();
        let mut i: u16 = 0;
        while i < n_catches
            invariant
                r.wf(),
                r.bytes@ == old(r).bytes@,
                labels.wf(),
                forall|k: int|
                    0 <= k < insns@.len() ==> #[trigger] refs_below(insns@[k], labels.offsets@.len() as nat),
                forall|k: int|
                    0 <= k < catches@.len() ==> #[trigger] catch_refs_below(catches@[k], labels.offsets@.len() as nat),
                cp.model() == old(cp).model(),
                cp.filled() == old(cp).filled(),
                pending_extends(old(cp).pending(), cp.pending(), old(cp).model()),
                offs.len() <= labels.offsets@.len(),
                forall|q: int| 0 <= q < offs.len() ==> labels.offsets@[q] == offs[q],
                catches@.len() == i,
                i <= n_catches,
                r.pos == tb + 2 + 8 * i,
                be16(old(r).bytes@[tb], old(r).bytes@[tb + 1]) == n_catches,
                forall|k: int| 0 <= k < catches@.len() ==> #[trigger] catch_read(old(r).bytes@, tb + 2 + 8 * k, catches@[k], labels.offsets@, old(cp).model()),
            decreases n_catches - i,
        {
            let ghost l_start = labels.offsets@.len();
            let ghost l_offs = labels.offsets@;
            let ghost c_start = catches@;
            let s = r.read_u16()?;
            let e = r.read_u16()?;
            let h = r.read_u16()?;
            let t = r.read_u16()?;
            let start = label_for(&mut labels, s as u32)?;
            let end = label_for(&mut labels, e as u32)?;
            let handler = label_for(&mut labels, h as u32)?;
            let catch = if t == 0 {
                None
            } else {
                match cp.read_raw(t) {
                    Some(RawConstantEntry::Class(c)) => Some(utf8_at(cp, c)?),
                    _ => return Err(Error::Invalid("catch type")),
                }
            };
            let ghost new_c = Catch { start, end, handler, catch };
            catches.push(Catch { start, end, handler, catch });
            proof {
                let rb = tb + 2 + 8 * (i as int);
                assert(catch_read(old(r).bytes@, rb, new_c, labels.offsets@, old(cp).model()));
                assert forall|k: int| 0 <= k < catches@.len() implies #[trigger] catch_read(old(r).bytes@, tb + 2 + 8 * k, catches@[k], labels.offsets@, old(cp).model()) by {
                    if k < c_start.len() {
                        assert(catches@[k] == c_start[k]);
                        assert(catch_read(old(r).bytes@, tb + 2 + 8 * k, c_start[k], l_offs, old(cp).model()));
                        assert(catch_refs_below(c_start[k], l_start as nat));
                    }
                }
                assert forall|k: int| 0 <= k < catches@.len() implies #[trigger] catch_refs_below(
                    catches@[k],
                    labels.offsets@.len() as nat,
                ) by {
                    if k < c_start.len() {
                        assert(catches@[k] == c_start[k]);
                        assert(catch_refs_below(c_start[k], l_start as nat));
                    }
                }
                assert forall|k: int| 0 <= k < insns@.len() implies #[trigger] refs_below(
                    insns@[k],
                    labels.offsets@.len() as nat,
                ) by {
                    lemma_refs_below_grow(insns@[k], l_start as nat, labels.offsets@.len() as nat);
                }
            }
            i = i + 1;
        }
        // Attributes.
        let ghost at_attrs = r.pos as int;
        assert(at_attrs == attrs_start(old(r).bytes@, old(r).pos as int));
        let n_attrs = r.read_u16()?;
        let mut attrs: Vec<CodeAttribute> = Vec::new();
        let mut lines: Vec<(u32, u16)> = Vec::new();
        let mut vars: Vec<LocalVariable> = Vec::new();
        let mut i: u16 = 0;
        while i < n_attrs
            invariant
                r.wf(),
                r.bytes@ == old(r).bytes@,
                labels.wf(),
                keys_unique(vars@),
                forall|k: int|
                    0 <= k < insns@.len() ==> #[trigger] refs_below(insns@[k], labels.offsets@.len() as nat),
                forall|k: int|
                    0 <= k < catches@.len() ==> #[trigger] catch_refs_below(catches@[k], labels.offsets@.len() as nat),
                cp.model() == old(cp).model(),
                cp.filled() == old(cp).filled(),
                pending_extends(old(cp).pending(), cp.pending(), old(cp).model()),
                offs.len() <= labels.offsets@.len(),
                forall|q: int| 0 <= q < offs.len() ==> labels.offsets@[q] == offs[q],
                tb + 2 + 8 * catches@.len() <= old(r).bytes@.len(),
                vars_below(vars@, labels.offsets@.len() as nat),
                forall|k: int| 0 <= k < attrs@.len() ==> !((#[trigger] attrs@[k]) is LocalVariables),
                be16(old(r).bytes@[tb], old(r).bytes@[tb + 1]) == catches@.len(),
                forall|k: int| 0 <= k < catches@.len() ==> #[trigger] catch_read(old(r).bytes@, tb + 2 + 8 * k, catches@[k], labels.offsets@, old(cp).model()),
                r.pos == attr_pos(old(r).bytes@, at_attrs + 2, i as nat),
                kept_models(attrs@) == kept_attrs(old(r).bytes@, at_attrs + 2, i as nat, old(cp).model()),
                lines@ == line_entries(old(r).bytes@, at_attrs + 2, i as nat, old(cp).model()),
                forall|k: int| 0 <= k < local_entries(old(r).bytes@, at_attrs + 2, i as nat, 1, old(cp).model()).len()
                    ==> #[trigger] row_held(vars@, local_entries(old(r).bytes@, at_attrs + 2, i as nat, 1, old(cp).model())[k], labels.offsets@, false),
                forall|k: int| 0 <= k < local_entries(old(r).bytes@, at_attrs + 2, i as nat, 2, old(cp).model()).len()
                    ==> #[trigger] row_held(vars@, local_entries(old(r).bytes@, at_attrs + 2, i as nat, 2, old(cp).model())[k], labels.offsets@, true),
                i <= n_attrs,
            decreases n_attrs - i,
        {
            let ghost l_start = labels.offsets@.len();
            let ghost l_offs = labels.offsets@;
            let ghost attrs0 = attrs@;
            let ghost vars0 = vars@;
            let ghost p_at = r.pos as int;
            let name_idx = r.read_u16()?;
            proof {
                assert forall|k: int| 0 <= k < catches@.len() implies #[trigger] catch_refs_below(
                    catches@[k],
                    l_start as nat,
                ) by {}
            }
            let len = r.read_u32()?;
            let body = r.read_bytes(len as usize)?;
            let name = utf8_at(cp, name_idx)?;
            if is_named(&name, "LineNumberTable") {
                read_line_numbers(body, &mut lines)?;
            } else if is_named(&name, "LocalVariableTable") {
                read_local_table(body, false, cp, &mut labels, &mut vars)?;
            } else if is_named(&name, "LocalVariableTypeTable") {
                read_local_table(body, true, cp, &mut labels, &mut vars)?;
            } else if is_named(&name, "RuntimeVisibleTypeAnnotations") {
                attrs.push(CodeAttribute::VisibleTypeAnnotations(body));
            } else if is_named(&name, "RuntimeInvisibleTypeAnnotations") {
                attrs.push(CodeAttribute::InvisibleTypeAnnotations(body));
            } else {
                attrs.push(CodeAttribute::Raw { name, data: body });
            }
            proof {
                let sb = old(r).bytes@;
                assert(attr_len(sb, p_at) == len as int);
                assert(attr_pos(sb, at_attrs + 2, (i + 1) as nat) == p_at + 6 + attr_len(sb, p_at));
                if attrs@.len() > attrs0.len() {
                    assert(attrs@.drop_last() =~= attrs0);
                }
                assert(kept_models(attrs@) =~= kept_attrs(sb, at_attrs + 2, (i + 1) as nat, old(cp).model()));
                assert(body@ == sb.subrange(p_at + 6, p_at + 6 + attr_len(sb, p_at)));
                assert(lines@ =~= line_entries(sb, at_attrs + 2, (i + 1) as nat, old(cp).model()));
                let m = old(cp).model();
                let d0 = local_entries(sb, at_attrs + 2, i as nat, 1, m);
                let d1 = local_entries(sb, at_attrs + 2, (i + 1) as nat, 1, m);
                let g0 = local_entries(sb, at_attrs + 2, i as nat, 2, m);
                let g1 = local_entries(sb, at_attrs + 2, (i + 1) as nat, 2, m);
                let rows = local_rows(body@, be16(body@[0], body@[1]) as nat, m);
                let kd = attr_kind(name@);
                assert forall|k: int| 0 <= k < d1.len() implies #[trigger] row_held(vars@, d1[k], labels.offsets@, false) by {
                    if k < d0.len() {
                        assert(d1[k] == d0[k]);
                        assert(row_held(vars0, d0[k], l_offs, false));
                    } else {
                        assert(kd == 1);
                        assert(d1[k] == rows[k - d0.len()]);
                    }
                }
                assert forall|k: int| 0 <= k < g1.len() implies #[trigger] row_held(vars@, g1[k], labels.offsets@, true) by {
                    if k < g0.len() {
                        assert(g1[k] == g0[k]);
                        assert(row_held(vars0, g0[k], l_offs, true));
                    } else {
                        assert(kd == 2);
                        assert(g1[k] == rows[k - g0.len()]);
                    }
                }
                assert forall|k: int| 0 <= k < catches@.len() implies #[trigger] catch_refs_below(
                    catches@[k],
                    labels.offsets@.len() as nat,
                ) by {
                    assert(catch_refs_below(catches@[k], l_start as nat));
                }
                assert forall|k: int| 0 <= k < catches@.len() implies #[trigger] catch_read(old(r).bytes@, tb + 2 + 8 * k, catches@[k], labels.offsets@, old(cp).model()) by {
                    assert(catch_read(old(r).bytes@, tb + 2 + 8 * k, catches@[k], l_offs, old(cp).model()));
                    assert(catch_refs_below(catches@[k], l_start as nat));
                }
                if vars@ == vars0 {
                    assert forall|k: int| 0 <= k < vars@.len() implies ((#[trigger] vars@[k]).start.0 as nat) < labels.offsets@.len() && (vars@[k].end.0 as nat) < labels.offsets@.len() by {
                        assert(vars_below(vars0, l_start as nat));
                        assert(vars@[k] == vars0[k]);
                    }
                }
                assert forall|k: int| 0 <= k < attrs@.len() implies !((#[trigger] attrs@[k]) is LocalVariables) by {
                    if k < attrs0.len() {
                        assert(attrs@[k] == attrs0[k]);
                    }
                }
                assert forall|k: int| 0 <= k < insns@.len() implies #[trigger] refs_below(
                    insns@[k],
                    labels.offsets@.len() as nat,
                ) by {
                    lemma_refs_below_grow(insns@[k], l_start as nat, labels.offsets@.len() as nat);
                }
            }
            i = i + 1;
        }
        let ghost attrs1 = attrs@;
        let ghost vars1 = vars@;
        if vars.len() > 0 {
            attrs.push(CodeAttribute::LocalVariables(vars));
            assert(attrs@.drop_last() =~= attrs1);
        }
        proof {
            let n1 = labels.offsets@.len() as nat;
            assert forall|k: int| 0 <= k < attrs@.len() && (#[trigger] attrs@[k]) is LocalVariables implies vars_below(attrs@[k]->LocalVariables_0@, n1) by {
                if k < attrs1.len() {
                    assert(attrs@[k] == attrs1[k]);
                } else {
                    assert(attrs@[k]->LocalVariables_0@ == vars1);
                }
            }
        }
        if labels.offsets.len() > u32::MAX as usize {
            return Err(Error::Invalid("too many labels"));
        }
        let ghost insns_v = insns@;
        let ghost positions_v = positions@;
        let code = place_pseudo(insns, &positions, code_len, &labels.offsets, &lines)?;
        let ghost n = labels.offsets@.len() as nat;
        let result = Code { max_stack, max_locals, code, catches, attrs };
        proof {
            let fin = labels.offsets@;
            assert forall|i: int| 0 <= i < insns_v.len() implies #[trigger] decoded_at(code_bytes, ends[i], ends[i + 1], insns_v[i], old(cp).model(), fin) by {
                lemma_decoded_at_grow(code_bytes, ends[i], ends[i + 1], insns_v[i], old(cp).model(), offs, fin);
            }
            assert(decoded_run(code_bytes, real_insns(result.code@), old(cp).model(), ends, fin));
            assert forall|id: u32| (id as int) < fin.len() implies #[trigger] label_at_pos(result.code@, ends, id, fin[id as int]) by {
                assert(label_at_offset(result.code@, positions_v, code_len, id, fin[id as int]));
                let slot = choose|slot: int| #[trigger] placed_at(result.code@, id, slot) && 0 <= slot <= positions_v.len() && (if slot < positions_v.len() {
                    positions_v[slot] == fin[id as int]
                } else {
                    fin[id as int] == code_len
                });
                assert(placed_at(result.code@, id, slot));
            }
            assert forall|j: int| 0 <= j < lines@.len() implies #[trigger] line_at_pos(result.code@, ends, lines@[j]) by {
                assert(line_at_offset(result.code@, positions_v, code_len, lines@[j].1, lines@[j].0));
                let slot = choose|slot: int| #[trigger] line_placed_at(result.code@, lines@[j].1, slot) && 0 <= slot <= positions_v.len() && (if slot < positions_v.len() {
                    positions_v[slot] == lines@[j].0
                } else {
                    lines@[j].0 == code_len
                });
                assert(line_placed_at(result.code@, lines@[j].1, slot));
            }
            let sb = old(r).bytes@;
            let m = old(cp).model();
            assert(attr_vars(result.attrs@) == vars1 || vars1.len() == 0);
            assert forall|k: int| 0 <= k < local_entries(sb, at_attrs + 2, n_attrs as nat, 1, m).len() implies #[trigger] row_held(
                attr_vars(result.attrs@), local_entries(sb, at_attrs + 2, n_attrs as nat, 1, m)[k], fin, false) by {
                assert(row_held(vars1, local_entries(sb, at_attrs + 2, n_attrs as nat, 1, m)[k], fin, false));
            }
            assert forall|k: int| 0 <= k < local_entries(sb, at_attrs + 2, n_attrs as nat, 2, m).len() implies #[trigger] row_held(
                attr_vars(result.attrs@), local_entries(sb, at_attrs + 2, n_attrs as nat, 2, m)[k], fin, true) by {
                assert(row_held(vars1, local_entries(sb, at_attrs + 2, n_attrs as nat, 2, m)[k], fin, true));
            }
            assert(body_read_with(old(r).bytes@, old(r).pos as int, result.code@, result.catches@, result.attrs@, old(cp).model(), ends, fin));
        }
        assert(labels_placed(result.code@, n));
        assert(every_label_placed(result.code@, result.catches@, result.attrs@));
        Ok(result)
    }
}

} // verus!