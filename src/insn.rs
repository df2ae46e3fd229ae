//! The instruction model: instructions name their jump targets by label and
//! their constants by pool entry.
use vstd::prelude::*;
use crate::bytes::{i16_bytes, i8_byte, push_u16, u16_bytes, Error};
use crate::cp::{entry_writable, EntryModel, RawConstantEntry, VecCp};

verus! {

pub const NOP: u8 = 0x00;
pub const BIPUSH: u8 = 0x10;
pub const SIPUSH: u8 = 0x11;
pub const LDC: u8 = 0x12;
pub const LDC_W: u8 = 0x13;
pub const LDC2_W: u8 = 0x14;
pub const ILOAD: u8 = 0x15;
pub const ALOAD: u8 = 0x19;
pub const ISTORE: u8 = 0x36;
pub const ASTORE: u8 = 0x3a;
pub const IINC: u8 = 0x84;
pub const IFEQ: u8 = 0x99;
pub const IF_ACMPNE: u8 = 0xa6;
pub const GOTO: u8 = 0xa7;
pub const JSR: u8 = 0xa8;
pub const RET: u8 = 0xa9;
pub const TABLESWITCH: u8 = 0xaa;
pub const LOOKUPSWITCH: u8 = 0xab;
pub const IRETURN: u8 = 0xac;
pub const RETURN: u8 = 0xb1;
pub const GETSTATIC: u8 = 0xb2;
pub const INVOKESTATIC: u8 = 0xb8;
pub const INVOKEINTERFACE: u8 = 0xb9;
pub const INVOKEDYNAMIC: u8 = 0xba;
pub const NEW: u8 = 0xbb;
pub const NEWARRAY: u8 = 0xbc;
pub const ANEWARRAY: u8 = 0xbd;
pub const CHECKCAST: u8 = 0xc0;
pub const INSTANCEOF: u8 = 0xc1;
pub const WIDE: u8 = 0xc4;
pub const MULTIANEWARRAY: u8 = 0xc5;
pub const IFNULL: u8 = 0xc6;
pub const IFNONNULL: u8 = 0xc7;
pub const GOTO_W: u8 = 0xc8;
pub const JSR_W: u8 = 0xc9;

/// An identity for a position in the instruction stream.
#[derive(Debug, Clone, Copy, PartialEq, Eq, Hash, Structural)]
pub struct Label(pub u32);

/// The condition of a branch.
#[derive(Debug, Clone, Copy, PartialEq, Eq, Hash, Structural)]
pub enum JumpCondition {
    Always,
    Eq,
    Ne,
    Lt,
    Ge,
    Gt,
    Le,
    ICmpEq,
    ICmpNe,
    ICmpLt,
    ICmpGe,
    ICmpGt,
    ICmpLe,
    ACmpEq,
    ACmpNe,
    Null,
    NonNull,
}

/// The opcode of the short form of a branch.
pub open spec fn cond_opcode(c: JumpCondition) -> u8 {
    match c {
        JumpCondition::Always => GOTO,
        JumpCondition::Eq => 0x99,
        JumpCondition::Ne => 0x9a,
        JumpCondition::Lt => 0x9b,
        JumpCondition::Ge => 0x9c,
        JumpCondition::Gt => 0x9d,
        JumpCondition::Le => 0x9e,
        JumpCondition::ICmpEq => 0x9f,
        JumpCondition::ICmpNe => 0xa0,
        JumpCondition::ICmpLt => 0xa1,
        JumpCondition::ICmpGe => 0xa2,
        JumpCondition::ICmpGt => 0xa3,
        JumpCondition::ICmpLe => 0xa4,
        JumpCondition::ACmpEq => 0xa5,
        JumpCondition::ACmpNe => 0xa6,
        JumpCondition::Null => IFNULL,
        JumpCondition::NonNull => IFNONNULL,
    }
}

/// The condition that holds exactly when `c` does not.
pub open spec fn negate(c: JumpCondition) -> JumpCondition {
    match c {
        JumpCondition::Always => JumpCondition::Always,
        JumpCondition::Eq => JumpCondition::Ne,
        JumpCondition::Ne => JumpCondition::Eq,
        JumpCondition::Lt => JumpCondition::Ge,
        JumpCondition::Ge => JumpCondition::Lt,
        JumpCondition::Gt => JumpCondition::Le,
        JumpCondition::Le => JumpCondition::Gt,
        JumpCondition::ICmpEq => JumpCondition::ICmpNe,
        JumpCondition::ICmpNe => JumpCondition::ICmpEq,
        JumpCondition::ICmpLt => JumpCondition::ICmpGe,
        JumpCondition::ICmpGe => JumpCondition::ICmpLt,
        JumpCondition::ICmpGt => JumpCondition::ICmpLe,
        JumpCondition::ICmpLe => JumpCondition::ICmpGt,
        JumpCondition::ACmpEq => JumpCondition::ACmpNe,
        JumpCondition::ACmpNe => JumpCondition::ACmpEq,
        JumpCondition::Null => JumpCondition::NonNull,
        JumpCondition::NonNull => JumpCondition::Null,
    }
}

impl JumpCondition {
    pub fn opcode(&self) -> (r: u8)
        ensures
            r == cond_opcode(*self),
    {
        match self {
            JumpCondition::Always => GOTO,
            JumpCondition::Eq => 0x99,
            JumpCondition::Ne => 0x9a,
            JumpCondition::Lt => 0x9b,
            JumpCondition::Ge => 0x9c,
            JumpCondition::Gt => 0x9d,
            JumpCondition::Le => 0x9e,
            JumpCondition::ICmpEq => 0x9f,
            JumpCondition::ICmpNe => 0xa0,
            JumpCondition::ICmpLt => 0xa1,
            JumpCondition::ICmpGe => 0xa2,
            JumpCondition::ICmpGt => 0xa3,
            JumpCondition::ICmpLe => 0xa4,
            JumpCondition::ACmpEq => 0xa5,
            JumpCondition::ACmpNe => 0xa6,
            JumpCondition::Null => IFNULL,
            JumpCondition::NonNull => IFNONNULL,
        }
    }

    pub fn negated(&self) -> (r: JumpCondition)
        ensures
            r == negate(*self),
    {
        match self {
            JumpCondition::Always => JumpCondition::Always,
            JumpCondition::Eq => JumpCondition::Ne,
            JumpCondition::Ne => JumpCondition::Eq,
            JumpCondition::Lt => JumpCondition::Ge,
            JumpCondition::Ge => JumpCondition::Lt,
            JumpCondition::Gt => JumpCondition::Le,
            JumpCondition::Le => JumpCondition::Gt,
            JumpCondition::ICmpEq => JumpCondition::ICmpNe,
            JumpCondition::ICmpNe => JumpCondition::ICmpEq,
            JumpCondition::ICmpLt => JumpCondition::ICmpGe,
            JumpCondition::ICmpGe => JumpCondition::ICmpLt,
            JumpCondition::ICmpGt => JumpCondition::ICmpLe,
            JumpCondition::ICmpLe => JumpCondition::ICmpGt,
            JumpCondition::ACmpEq => JumpCondition::ACmpNe,
            JumpCondition::ACmpNe => JumpCondition::ACmpEq,
            JumpCondition::Null => JumpCondition::NonNull,
            JumpCondition::NonNull => JumpCondition::Null,
        }
    }

    /// The condition of a short branch opcode.
    pub fn from_opcode(op: u8) -> (r: Option<JumpCondition>)
        ensures
            r is Some <==> ((IFEQ <= op <= GOTO) || op == IFNULL || op == IFNONNULL),
            r is Some ==> cond_opcode(r->Some_0) == op,
    {
        match op {
            0x99 => Some(JumpCondition::Eq),
            0x9a => Some(JumpCondition::Ne),
            0x9b => Some(JumpCondition::Lt),
            0x9c => Some(JumpCondition::Ge),
            0x9d => Some(JumpCondition::Gt),
            0x9e => Some(JumpCondition::Le),
            0x9f => Some(JumpCondition::ICmpEq),
            0xa0 => Some(JumpCondition::ICmpNe),
            0xa1 => Some(JumpCondition::ICmpLt),
            0xa2 => Some(JumpCondition::ICmpGe),
            0xa3 => Some(JumpCondition::ICmpGt),
            0xa4 => Some(JumpCondition::ICmpLe),
            0xa5 => Some(JumpCondition::ACmpEq),
            0xa6 => Some(JumpCondition::ACmpNe),
            0xa7 => Some(JumpCondition::Always),
            0xc6 => Some(JumpCondition::Null),
            0xc7 => Some(JumpCondition::NonNull),
            _ => None,
        }
    }
}

/// An instruction of a method body, or a pseudo-instruction that marks a
/// position (`Label`) or starts a source line (`LineNumber`).
#[derive(Debug, Clone, PartialEq, Eq)]
pub enum Instruction {
    Label(Label),
    LineNumber(u16),
    /// An instruction without operands.
    Op(u8),
    /// `bipush` or `newarray` with its one-byte operand.
    Byte(u8, u8),
    /// `sipush`.
    Sipush(i16),
    /// A load, a store or `ret` on a local slot.
    Local(u8, u16),
    /// `iinc` of a local slot.
    Iinc(u16, i16),
    /// `ldc` of a constant.
    Ldc(RawConstantEntry),
    /// `ldc2_w`, a field or method access, or a type operation, on a constant.
    Constant(u8, RawConstantEntry),
    InvokeInterface(RawConstantEntry, u8),
    InvokeDynamic(RawConstantEntry),
    MultiANewArray(RawConstantEntry, u8),
    Jump(JumpCondition, Label),
    Jsr(Label),
    TableSwitch { default: Label, low: i32, offsets: Vec<Label> },
    LookupSwitch { default: Label, table: Vec<(i32, Label)> },
}

/// Opcodes that take no operand.
pub open spec fn is_simple_op(op: u8) -> bool {
    (op <= 0x0f) || (0x1a <= op <= 0x35) || (0x3b <= op <= 0x83) || (0x85 <= op <= 0x98) || (
    IRETURN <= op <= RETURN) || op == 0xbe || op == 0xbf || op == 0xc2 || op == 0xc3
}

/// Opcodes that take a local slot.
pub open spec fn is_local_op(op: u8) -> bool {
    (ILOAD <= op <= ALOAD) || (ISTORE <= op <= ASTORE) || op == RET
}

/// Opcodes that take a two-byte pool index and nothing else.
pub open spec fn is_cp_op(op: u8) -> bool {
    op == LDC2_W || (GETSTATIC <= op <= INVOKESTATIC) || op == NEW || op == ANEWARRAY || op
        == CHECKCAST || op == INSTANCEOF
}

pub fn simple_op(op: u8) -> (r: bool)
    ensures
        r == is_simple_op(op),
{
    op <= 0x0f || (0x1a <= op && op <= 0x35) || (0x3b <= op && op <= 0x83) || (0x85 <= op && op
        <= 0x98) || (IRETURN <= op && op <= RETURN) || op == 0xbe || op == 0xbf || op == 0xc2 || op
        == 0xc3
}

pub fn local_op(op: u8) -> (r: bool)
    ensures
        r == is_local_op(op),
{
    (ILOAD <= op && op <= ALOAD) || (ISTORE <= op && op <= ASTORE) || op == RET
}

pub fn cp_op(op: u8) -> (r: bool)
    ensures
        r == is_cp_op(op),
{
    op == LDC2_W || (GETSTATIC <= op && op <= INVOKESTATIC) || op == NEW || op == ANEWARRAY || op
        == CHECKCAST || op == INSTANCEOF
}

impl Instruction {
    /// Label and line-number markers, which take no bytes.
    pub open spec fn is_pseudo(&self) -> bool {
        self is Label || self is LineNumber
    }

    /// Instructions whose size depends on where their targets are.
    pub open spec fn is_jump(&self) -> bool {
        self is Jump || self is Jsr || self is TableSwitch || self is LookupSwitch
    }

    /// The constant an instruction refers to, if any.
    pub open spec fn entry(&self) -> Option<EntryModel> {
        match self {
            Instruction::Ldc(e) => Some(e@),
            Instruction::Constant(_, e) => Some(e@),
            Instruction::InvokeInterface(e, _) => Some(e@),
            Instruction::InvokeDynamic(e) => Some(e@),
            Instruction::MultiANewArray(e, _) => Some(e@),
            _ => None,
        }
    }

    /// A non-jump instruction whose opcode fits its variant.
    pub open spec fn plain_ok(&self) -> bool {
        match self {
            Instruction::Op(op) => is_simple_op(*op),
            Instruction::Byte(op, _) => *op == BIPUSH || *op == NEWARRAY,
            Instruction::Local(op, _) => is_local_op(*op),
            Instruction::Constant(op, _) => is_cp_op(*op),
            _ => true,
        }
    }
}

/// The encoding of a non-jump instruction whose constant, if any, has pool
/// index `idx`. Local slots past 255 and increments outside a signed byte
/// take the `wide` form; a constant past index 255 takes `ldc_w`.
pub open spec fn plain_bytes(insn: Instruction, idx: u16) -> Seq<u8> {
    match insn {
        Instruction::Op(op) => seq![op],
        Instruction::Byte(op, b) => seq![op, b],
        Instruction::Sipush(v) => seq![SIPUSH] + i16_bytes(v as int),
        Instruction::Local(op, n) => if n <= 255 {
            seq![op, n as u8]
        } else {
            seq![WIDE, op] + u16_bytes(n)
        },
        Instruction::Iinc(n, c) => if n <= 255 && -128 <= c <= 127 {
            seq![IINC, n as u8, i8_byte(c as int)]
        } else {
            seq![WIDE, IINC] + u16_bytes(n) + i16_bytes(c as int)
        },
        Instruction::Ldc(_) => if idx <= 255 {
            seq![LDC, idx as u8]
        } else {
            seq![LDC_W] + u16_bytes(idx)
        },
        Instruction::Constant(op, _) => seq![op] + u16_bytes(idx),
        Instruction::InvokeInterface(_, c) => seq![INVOKEINTERFACE] + u16_bytes(idx) + seq![c, 0],
        Instruction::InvokeDynamic(_) => seq![INVOKEDYNAMIC] + u16_bytes(idx) + seq![0u8, 0u8],
        Instruction::MultiANewArray(_, d) => seq![MULTIANEWARRAY] + u16_bytes(idx) + seq![d],
        _ => Seq::empty(),
    }
}

/// The pool gives index `idx` to an entry equal to `e`.
pub open spec fn pool_has_at(cp: VecCp, e: EntryModel, idx: u16) -> bool {
    exists|i: int| 0 <= i < cp.models().len() && cp.models()[i] == e && cp.index_at(i) == idx
}

/// The pool `b` holds what `a` holds, at the same indices, and perhaps more.
pub open spec fn pool_grows(a: VecCp, b: VecCp) -> bool {
    &&& a.models().len() <= b.models().len()
    &&& forall|i: int| 0 <= i < a.models().len() ==> b.models()[i] == a.models()[i]
    &&& forall|i: int| 0 <= i < a.models().len() ==> b.index_at(i) == a.index_at(i)
    &&& b.bsms() == a.bsms()
}

/// An index the pool gave stays the index of the same value as it grows.
pub proof fn lemma_has_at_grows(a: VecCp, b: VecCp, e: EntryModel, idx: u16)
    requires
        pool_grows(a, b),
        pool_has_at(a, e, idx),
    ensures
        pool_has_at(b, e, idx),
{
    let i = choose|i: int| 0 <= i < a.models().len() && a.models()[i] == e && a.index_at(i) == idx;
    assert(b.models()[i] == e && b.index_at(i) == idx);
}

/// Inserts `e` into the pool, failing when the pool is full or the entry
/// cannot be encoded.
pub fn insert_checked(cp: &mut VecCp, e: &RawConstantEntry) -> (r: Result<u16, Error>)
    requires
        old(cp).wf(),
    ensures
        final(cp).wf(),
        pool_grows(*old(cp), *final(cp)),
        r is Ok ==> pool_has_at(*final(cp), e@, r->Ok_0),
        r is Err <==> !entry_writable(e@) || !(old(cp).contains(e@) || old(cp).next_index()
            + e@.size() <= 0xFFFF),
        r is Err ==> r == Err::<u16, Error>(Error::Invalid("constant pool entry")) && *final(cp)
            == *old(cp),
        old(cp).next_index() <= final(cp).next_index() <= old(cp).next_index() + 2,
        !e@.wide() ==> final(cp).next_index() <= old(cp).next_index() + 1,
{
    let writable = match e {
        RawConstantEntry::UTF8(b) => b.len() <= 0xFFFF,
        _ => true,
    };
    if !writable || !cp.can_insert(e) {
        return Err(Error::Invalid("constant pool entry"));
    }
    let ghost before = *cp;
    let idx = cp.insert_raw(e.duplicate());
    proof {
        if !before.contains(e@) {
            let n = before.models().len() as int;
            assert(cp.models()[n] == e@);
            assert(cp.index_at(n) == idx);
        }
    }
    Ok(idx)
}

/// The two's-complement bit pattern of a 16-bit value.
fn u16_of(v: i16) -> (r: u16)
    ensures
        u16_bytes(r) == i16_bytes(v as int),
{
    if v < 0 {
        (v as i32 + 0x1_0000) as u16
    } else {
        v as u16
    }
}

/// Appends the encoding of a non-jump instruction, inserting its constant,
/// if any, into the pool. Fails on an opcode that does not fit its variant
/// and on a constant the pool cannot take.
pub fn write_plain(insn: &Instruction, cp: &mut VecCp, out: &mut Vec<u8>) -> (r: Result<u16, Error>)
    requires
        old(cp).wf(),
        !insn.is_jump(),
    ensures
        final(cp).wf(),
        pool_grows(*old(cp), *final(cp)),
        r is Ok <==> insn.plain_ok() && match insn.entry() {
            Some(e) => entry_writable(e) && (old(cp).contains(e) || old(cp).next_index()
                + e.size() <= 0xFFFF),
            None => true,
        },
        r is Err ==> r->Err_0 is Invalid,
        r is Ok ==> final(out)@ == old(out)@ + plain_bytes(*insn, r->Ok_0),
        r is Ok && insn.entry() is None ==> r->Ok_0 == 0,
        r is Ok && insn.entry() is Some ==> pool_has_at(*final(cp), insn.entry()->Some_0, r->Ok_0),
        r is Err ==> final(out)@ == old(out)@,
{
    let ghost o = out@;
    match insn {
        Instruction::Label(_) | Instruction::LineNumber(_) => {
            assert(out@ =~= o + plain_bytes(*insn, 0));
        },
        Instruction::Op(op) => {
            if !simple_op(*op) {
                return Err(Error::Invalid("opcode"));
            }
            out.push(*op);
            assert(out@ =~= o + plain_bytes(*insn, 0));
        },
        Instruction::Byte(op, b) => {
            if *op != BIPUSH && *op != NEWARRAY {
                return Err(Error::Invalid("opcode"));
            }
            out.push(*op);
            out.push(*b);
            assert(out@ =~= o + plain_bytes(*insn, 0));
        },
        Instruction::Sipush(v) => {
            out.push(SIPUSH);
            push_u16(out, u16_of(*v));
            assert(out@ =~= o + plain_bytes(*insn, 0));
        },
        Instruction::Local(op, n) => {
            if !local_op(*op) {
                return Err(Error::Invalid("opcode"));
            }
            if *n <= 255 {
                out.push(*op);
                out.push(*n as u8);
            } else {
                out.push(WIDE);
                out.push(*op);
                push_u16(out, *n);
            }
            assert(out@ =~= o + plain_bytes(*insn, 0));
        },
        Instruction::Iinc(n, c) => {
            if *n <= 255 && -128 <= *c && *c <= 127 {
                out.push(IINC);
                out.push(*n as u8);
                out.push(
                    if *c < 0 {
                        (*c + 0x100) as u8
                    } else {
                        *c as u8
                    },
                );
            } else {
                out.push(WIDE);
                out.push(IINC);
                push_u16(out, *n);
                push_u16(out, u16_of(*c));
            }
            assert(out@ =~= o + plain_bytes(*insn, 0));
        },
        Instruction::Ldc(e) => {
            let idx = insert_checked(cp, e)?;
            if idx <= 255 {
                out.push(LDC);
                out.push(idx as u8);
            } else {
                out.push(LDC_W);
                push_u16(out, idx);
            }
            assert(out@ =~= o + plain_bytes(*insn, idx));
            return Ok(idx);
        },
        Instruction::Constant(op, e) => {
            if !cp_op(*op) {
                return Err(Error::Invalid("opcode"));
            }
            let idx = insert_checked(cp, e)?;
            out.push(*op);
            push_u16(out, idx);
            assert(out@ =~= o + plain_bytes(*insn, idx));
            return Ok(idx);
        },
        Instruction::InvokeInterface(e, c) => {
            let idx = insert_checked(cp, e)?;
            out.push(INVOKEINTERFACE);
            push_u16(out, idx);
            out.push(*c);
            out.push(0);
            assert(out@ =~= o + plain_bytes(*insn, idx));
            return Ok(idx);
        },
        Instruction::InvokeDynamic(e) => {
            let idx = insert_checked(cp, e)?;
            out.push(INVOKEDYNAMIC);
            push_u16(out, idx);
            out.push(0);
            out.push(0);
            assert(out@ =~= o + plain_bytes(*insn, idx));
            return Ok(idx);
        },
        Instruction::MultiANewArray(e, d) => {
            let idx = insert_checked(cp, e)?;
            out.push(MULTIANEWARRAY);
            push_u16(out, idx);
            out.push(*d);
            assert(out@ =~= o + plain_bytes(*insn, idx));
            return Ok(idx);
        },
        _ => {},
    }
    Ok(0)
}

} // verus!
