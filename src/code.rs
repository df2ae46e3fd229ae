//! The `Code` attribute of a method: its instructions, its exception table
//! and the attributes that describe them.
use vstd::prelude::*;
use vstd::string::StringSliceAdditionalSpecFns;
use crate::bytes::{push_u16, push_u32, u16_bytes, u32_bytes, Error};
use crate::cp::{EntryModel, RawConstantEntry, VecCp};
use crate::insn::{
    insert_checked, lemma_has_at_grows, plain_bytes, pool_grows, pool_has_at, write_plain, Instruction, JumpCondition,
    Label,
};
use crate::jump::{
    as_ints, branch_bytes, jsr_bytes, keys_increasing, lemma_offsets_len, lemma_pairs_len,
    lookupswitch_bytes, pairs_as_ints, sorted_table, tableswitch_bytes, write_branch, write_jsr,
    write_lookupswitch, write_tableswitch,
};
use crate::layout::{
    choose_widths, code_end, fits16, jump_pos, jump_size, lemma_seg_start_mono, offset,
    seg_start, segment_starts, shape_ok, widths_ok, JumpKind, JumpSlot, MAX_CODE,
};

verus! {

/// A try/catch block: the range it covers, its handler, and the name of
/// the class it catches in modified UTF-8 (`None` catches everything).
#[derive(Debug, Clone, PartialEq, Eq)]
pub struct Catch {
    pub start: Label,
    pub end: Label,
    pub handler: Label,
    pub catch: Option<Vec<u8>>,
}

/// A local variable over a range of code, with its type descriptor, its
/// generic signature, or both. Strings are modified UTF-8 bytes.
#[derive(Debug, Clone, PartialEq, Eq)]
pub struct LocalVariable {
    pub start: Label,
    pub end: Label,
    pub name: Vec<u8>,
    pub descriptor: Option<Vec<u8>>,
    pub signature: Option<Vec<u8>>,
    pub index: u16,
}

/// An attribute of a `Code` attribute.
#[derive(Debug, Clone, PartialEq, Eq)]
pub enum CodeAttribute {
    /// The local variables, from the LocalVariableTable and
    /// LocalVariableTypeTable attributes together.
    LocalVariables(Vec<LocalVariable>),
    /// The body of a RuntimeVisibleTypeAnnotations attribute.
    VisibleTypeAnnotations(Vec<u8>),
    /// The body of a RuntimeInvisibleTypeAnnotations attribute.
    InvisibleTypeAnnotations(Vec<u8>),
    /// Any other attribute, by name and body.
    Raw { name: Vec<u8>, data: Vec<u8> },
}

/// A method body.
#[derive(Debug, Clone, PartialEq, Eq, Default)]
pub struct Code {
    pub max_stack: u16,
    pub max_locals: u16,
    pub code: Vec<Instruction>,
    pub catches: Vec<Catch>,
    pub attrs: Vec<CodeAttribute>,
}

/// The position recorded for `id`, searching from the front.
pub open spec fn find_pos(abs: Seq<(u32, u32)>, id: u32) -> Option<u32>
    decreases abs.len(),
{
    if abs.len() == 0 {
        None
    } else if abs[0].0 == id {
        Some(abs[0].1)
    } else {
        find_pos(abs.drop_first(), id)
    }
}

/// The position of a label that has one.
pub open spec fn label_at(abs: Seq<(u32, u32)>, l: Label) -> int {
    find_pos(abs, l.0)->Some_0 as int
}

pub fn lookup_pos(abs: &Vec<(u32, u32)>, l: Label) -> (r: Option<u32>)
    ensures
        r == find_pos(abs@, l.0),
{
    let mut i: usize = 0;
    assert(abs@.subrange(0, abs@.len() as int) =~= abs@);
    while i < abs.len()
        invariant
            i <= abs@.len(),
            find_pos(abs@, l.0) == find_pos(abs@.subrange(i as int, abs@.len() as int), l.0),
        decreases abs@.len() - i,
    {
        let ghost rest = abs@.subrange(i as int, abs@.len() as int);
        assert(rest.drop_first() =~= abs@.subrange(i + 1, abs@.len() as int));
        if abs[i].0 == l.0 {
            return Some(abs[i].1);
        }
        i = i + 1;
    }
    None
}

proof fn lemma_find_pos_bound(abs: Seq<(u32, u32)>, id: u32, bound: u32)
    requires
        forall|i: int| 0 <= i < abs.len() ==> abs[i].1 <= bound,
    ensures
        find_pos(abs, id) is Some ==> find_pos(abs, id)->Some_0 <= bound,
    decreases abs.len(),
{
    if abs.len() > 0 {
        lemma_find_pos_bound(abs.drop_first(), id, bound);
    }
}

/// The pairs of a lookup table with their labels' positions.
pub open spec fn placed(t: Seq<(i32, Label)>, abs: Seq<(u32, u32)>) -> Seq<(i32, int)> {
    t.map_values(|p: (i32, Label)| (p.0, label_at(abs, p.1)))
}

/// `bytes` encode the jump `insn` with its opcode at `pos`: a branch with
/// offset `off`, a switch with its labels at the positions `abs` gives, a
/// `lookupswitch` listing its pairs in increasing key order.
pub open spec fn jump_written(
    bytes: Seq<u8>,
    insn: Instruction,
    wide: bool,
    pos: int,
    off: int,
    abs: Seq<(u32, u32)>,
) -> bool {
    match insn {
        Instruction::Jump(c, _) => bytes == branch_bytes(c, wide, off),
        Instruction::Jsr(_) => bytes == jsr_bytes(wide, off),
        Instruction::TableSwitch { default, low, offsets } => {
            &&& find_pos(abs, default.0) is Some
            &&& forall|k: int| 0 <= k < offsets@.len() ==> find_pos(abs, (#[trigger] offsets@[k]).0) is Some
            &&& bytes == tableswitch_bytes(
                pos,
                label_at(abs, default),
                low,
                offsets@.map_values(|l: Label| label_at(abs, l)),
            )
        },
        Instruction::LookupSwitch { default, table } => find_pos(abs, default.0) is Some && (forall|k: int|
            0 <= k < table@.len() ==> find_pos(abs, (#[trigger] table@[k]).1.0) is Some) && exists|sorted: Seq<(i32, Label)>|
            {
                &&& keys_increasing(sorted)
                &&& sorted.len() == table@.len()
                &&& forall|p: (i32, Label)| sorted.contains(p) <==> table@.contains(p)
                &&& bytes == #[trigger] lookupswitch_bytes(
                    pos,
                    label_at(abs, default),
                    placed(sorted, abs),
                )
            },
        _ => false,
    }
}

/// The instructions cut at their jumps: segments of fixed bytes, the jump
/// after each segment but the last, and where each label and line number
/// fell, as a segment and an offset in it.
struct Pieces {
    segs: Vec<Vec<u8>>,
    jumps: Vec<usize>,
    labels: Vec<(u32, usize, u32)>,
    lines: Vec<(usize, u32, u16)>,
    /// The pool index each instruction's constant was written with (zero
    /// where there is none).
    idxs: Ghost<Seq<u16>>,
    /// The segment each instruction falls in.
    seg_at: Ghost<Seq<int>>,
}

/// The encodings of `code[a..b]`, each with its pool index from `idxs`;
/// labels and line numbers take no bytes.
pub open spec fn plain_run(code: Seq<Instruction>, idxs: Seq<u16>, a: int, b: int) -> Seq<u8>
    decreases b - a,
{
    if b <= a {
        Seq::empty()
    } else {
        plain_run(code, idxs, a, b - 1) + plain_bytes(code[b - 1], idxs[b - 1])
    }
}

/// Where the instructions of segment `j` begin in the code.
pub open spec fn seg_begin(jumps: Seq<usize>, j: int) -> int {
    if j == 0 {
        0
    } else {
        jumps[j - 1] + 1
    }
}

/// Where the instructions of segment `j` end in code of length `n`: at the
/// jump after it, or at the end.
pub open spec fn seg_finish(jumps: Seq<usize>, j: int, n: int) -> int {
    if j < jumps.len() {
        jumps[j] as int
    } else {
        n
    }
}

proof fn lemma_plain_run_agree(code: Seq<Instruction>, x: Seq<u16>, y: Seq<u16>, a: int, b: int)
    requires
        forall|i: int| a <= i < b ==> x[i] == y[i],
    ensures
        plain_run(code, x, a, b) == plain_run(code, y, a, b),
    decreases b - a,
{
    if b > a {
        lemma_plain_run_agree(code, x, y, a, b - 1);
    }
}

spec fn unique_ids(labels: Seq<(u32, usize, u32)>) -> bool {
    forall|a: int, b: int| 0 <= a < b < labels.len() ==> labels[a].0 != labels[b].0
}

impl Pieces {
    spec fn wf(&self, code: Seq<Instruction>) -> bool {
        &&& self.segs@.len() == self.jumps@.len() + 1
        &&& forall|j: int|
            0 <= j < self.jumps@.len() ==> #[trigger] self.jumps@[j] < code.len()
                && code[self.jumps@[j] as int].is_jump()
        &&& forall|j: int| 0 <= j < self.segs@.len() ==> #[trigger] self.segs@[j]@.len() <= MAX_CODE
        &&& forall|i: int|
            0 <= i < self.labels@.len() ==> #[trigger] self.labels@[i].1 < self.segs@.len()
                && self.labels@[i].2 <= self.segs@[self.labels@[i].1 as int]@.len()
        &&& unique_ids(self.labels@)
        &&& forall|i: int|
            0 <= i < self.lines@.len() ==> #[trigger] self.lines@[i].0 < self.segs@.len()
                && self.lines@[i].1 <= self.segs@[self.lines@[i].0 as int]@.len()
        &&& self.idxs@.len() == code.len()
        &&& forall|a: int, b: int| 0 <= a < b < self.jumps@.len() ==> self.jumps@[a] < self.jumps@[b]
        &&& forall|j: int|
            0 <= j < self.segs@.len() ==> (#[trigger] self.segs@[j])@ == plain_run(
                code,
                self.idxs@,
                seg_begin(self.jumps@, j),
                seg_finish(self.jumps@, j, code.len() as int),
            )
    }
}

/// `seg_at` gives, for each instruction, the number of jumps before it.
pub open spec fn segments_of(jumps: Seq<usize>, seg_at: Seq<int>, n: int) -> bool {
    &&& seg_at.len() == n
    &&& forall|m: int|
        0 <= m < n ==> {
            &&& 0 <= #[trigger] seg_at[m] <= jumps.len()
            &&& seg_at[m] > 0 ==> jumps[seg_at[m] - 1] < m
            &&& seg_at[m] < jumps.len() ==> jumps[seg_at[m]] >= m
        }
}

/// Each `Label(l)` of `code` was recorded with the segment it falls in and
/// the bytes of the instructions before it in that segment.
pub open spec fn labels_recorded(
    labels: Seq<(u32, usize, u32)>,
    code: Seq<Instruction>,
    idxs: Seq<u16>,
    jumps: Seq<usize>,
    seg_at: Seq<int>,
    n: int,
) -> bool {
    forall|m: int|
        0 <= m < n && (#[trigger] code[m]) is Label ==> exists|k: int|
            0 <= k < labels.len() && labels[k].0 == code[m]->Label_0.0 && labels[k].1 as int == seg_at[m]
                && labels[k].2 as int == plain_run(code, idxs, seg_begin(jumps, seg_at[m]), m).len()
}

/// Each `LineNumber(n)` of `code` was recorded with the segment it falls
/// in and the bytes of the instructions before it in that segment.
pub open spec fn lines_recorded(
    lines: Seq<(usize, u32, u16)>,
    code: Seq<Instruction>,
    idxs: Seq<u16>,
    jumps: Seq<usize>,
    seg_at: Seq<int>,
    n: int,
) -> bool {
    forall|m: int|
        0 <= m < n && (#[trigger] code[m]) is LineNumber ==> exists|k: int|
            0 <= k < lines.len() && lines[k].2 == code[m]->LineNumber_0 && lines[k].0 as int == seg_at[m]
                && lines[k].1 as int == plain_run(code, idxs, seg_begin(jumps, seg_at[m]), m).len()
}

/// Every constant of `code` is in the pool at the index `idxs` gives it.
pub open spec fn constants_at(code: Seq<Instruction>, idxs: Seq<u16>, cp: VecCp) -> bool {
    forall|i: int|
        0 <= i < code.len() && (#[trigger] code[i]).entry() is Some ==> pool_has_at(
            cp,
            code[i].entry()->Some_0,
            idxs[i],
        )
}

fn find_label(labels: &Vec<(u32, usize, u32)>, id: u32) -> (r: Option<(usize, u32)>)
    ensures
        r is None <==> forall|i: int| 0 <= i < labels@.len() ==> labels@[i].0 != id,
        r is Some ==> exists|i: int|
            0 <= i < labels@.len() && labels@[i].0 == id && labels@[i].1 == r->Some_0.0
                && labels@[i].2 == r->Some_0.1,
{
    let mut i: usize = 0;
    while i < labels.len()
        invariant
            i <= labels@.len(),
            forall|k: int| 0 <= k < i ==> labels@[k].0 != id,
        decreases labels@.len() - i,
    {
        if labels[i].0 == id {
            return Some((labels[i].1, labels[i].2));
        }
        i = i + 1;
    }
    None
}

fn is_jump(insn: &Instruction) -> (r: bool)
    ensures
        r == insn.is_jump(),
{
    match insn {
        Instruction::Jump(_, _) | Instruction::Jsr(_) | Instruction::TableSwitch { .. }
        | Instruction::LookupSwitch { .. } => true,
        _ => false,
    }
}

/// Encodes everything but the jumps, cutting the code at each jump.
fn split(code: &Vec<Instruction>, cp: &mut VecCp) -> (r: Result<Pieces, Error>)
    requires
        old(cp).wf(),
    ensures
        final(cp).wf(),
        pool_grows(*old(cp), *final(cp)),
        r is Ok ==> r->Ok_0.wf(code@),
        r is Ok ==> constants_at(code@, r->Ok_0.idxs@, *final(cp)),
        r is Ok ==> segments_of(r->Ok_0.jumps@, r->Ok_0.seg_at@, code@.len() as int),
        r is Ok ==> labels_recorded(r->Ok_0.labels@, code@, r->Ok_0.idxs@, r->Ok_0.jumps@, r->Ok_0.seg_at@, code@.len() as int),
        r is Ok ==> lines_recorded(r->Ok_0.lines@, code@, r->Ok_0.idxs@, r->Ok_0.jumps@, r->Ok_0.seg_at@, code@.len() as int),
        r is Err ==> r->Err_0 is Invalid,
{
    let ghost mut idxs: Seq<u16> = Seq::empty();
    let ghost mut seg_at: Seq<int> = Seq::empty();
    let mut segs: Vec<Vec<u8>> = Vec::new();
    let mut jumps: Vec<usize> = Vec::new();
    let mut labels: Vec<(u32, usize, u32)> = Vec::new();
    let mut lines: Vec<(usize, u32, u16)> = Vec::new();
    let mut cur: Vec<u8> = Vec::new();
    let mut i: usize = 0;
    while i < code.len()
        invariant
            cp.wf(),
            pool_grows(*old(cp), *cp),
            i <= code@.len(),
            cur@.len() <= MAX_CODE,
            idxs.len() == i,
            segments_of(jumps@, seg_at, i as int),
            forall|m: int| 0 <= m < i ==> #[trigger] seg_at[m] < jumps@.len() || seg_at[m] == segs@.len(),
            labels_recorded(labels@, code@, idxs, jumps@, seg_at, i as int),
            lines_recorded(lines@, code@, idxs, jumps@, seg_at, i as int),
            cur@ == plain_run(code@, idxs, seg_begin(jumps@, segs@.len() as int), i as int),
            seg_begin(jumps@, segs@.len() as int) <= i,
            forall|a: int, b: int| 0 <= a < b < jumps@.len() ==> jumps@[a] < jumps@[b],
            forall|j: int| 0 <= j < jumps@.len() ==> #[trigger] jumps@[j] < i,
            forall|j: int|
                0 <= j < segs@.len() ==> (#[trigger] segs@[j])@ == plain_run(
                    code@,
                    idxs,
                    seg_begin(jumps@, j),
                    jumps@[j] as int,
                ),
            forall|m: int|
                0 <= m < i && (#[trigger] code@[m]).entry() is Some ==> pool_has_at(
                    *cp,
                    code@[m].entry()->Some_0,
                    idxs[m],
                ),
            ({
                &&& segs@.len() == jumps@.len()
                &&& forall|j: int|
                    0 <= j < jumps@.len() ==> #[trigger] jumps@[j] < code@.len()
                        && code@[jumps@[j] as int].is_jump()
                &&& forall|j: int| 0 <= j < segs@.len() ==> #[trigger] segs@[j]@.len() <= MAX_CODE
                &&& forall|k: int|
                    0 <= k < labels@.len() ==> #[trigger] labels@[k].1 <= segs@.len() && (
                    if labels@[k].1 < segs@.len() {
                        labels@[k].2 <= segs@[labels@[k].1 as int]@.len()
                    } else {
                        labels@[k].2 <= cur@.len()
                    })
                &&& unique_ids(labels@)
                &&& forall|k: int|
                    0 <= k < lines@.len() ==> #[trigger] lines@[k].0 <= segs@.len() && (
                    if lines@[k].0 < segs@.len() {
                        lines@[k].1 <= segs@[lines@[k].0 as int]@.len()
                    } else {
                        lines@[k].1 <= cur@.len()
                    })
            }),
        decreases code@.len() - i,
    {
        let insn = &code[i];
        let ghost before = idxs;
        let ghost c0 = *cp;
        let ghost begin = seg_begin(jumps@, segs@.len() as int);
        let ghost segs0 = segs@;
        let ghost jumps0 = jumps@;
        let ghost labels0 = labels@;
        let ghost lines0 = lines@;
        let ghost seg_at0 = seg_at;
        let ghost cur0 = cur@;
        let mut used: u16 = 0;
        match insn {
            Instruction::Label(l) => {
                if find_label(&labels, l.0).is_some() {
                    return Err(Error::Invalid("label placed twice"));
                }
                labels.push((l.0, segs.len(), cur.len() as u32));
            },
            Instruction::LineNumber(n) => {
                lines.push((segs.len(), cur.len() as u32, *n));
            },
            _ => {
                if is_jump(insn) {
                    segs.push(cur);
                    cur = Vec::new();
                    jumps.push(i);
                } else {
                    used = write_plain(insn, cp, &mut cur)?;
                    if cur.len() as u64 > MAX_CODE {
                        return Err(Error::Invalid("code length"));
                    }
                }
            },
        }
        proof {
            idxs = before.push(used);
            seg_at = seg_at0.push(segs0.len() as int);
            lemma_plain_run_agree(code@, before, idxs, begin, i as int);
            assert(segments_of(jumps@, seg_at, i + 1)) by {
                assert forall|m: int| 0 <= m < i + 1 implies {
                    &&& 0 <= #[trigger] seg_at[m] <= jumps@.len()
                    &&& seg_at[m] > 0 ==> jumps@[seg_at[m] - 1] < m
                    &&& seg_at[m] < jumps@.len() ==> jumps@[seg_at[m]] >= m
                } by {
                    if m < i {
                        assert(seg_at[m] == seg_at0[m]);
                        if seg_at[m] > 0 {
                            assert(jumps@[seg_at[m] - 1] == jumps0[seg_at[m] - 1]);
                        }
                        if seg_at[m] < jumps0.len() {
                            assert(jumps@[seg_at[m]] == jumps0[seg_at[m]]);
                        }
                    } else {
                        if seg_at[m] > 0 {
                            assert(jumps@[seg_at[m] - 1] == jumps0[seg_at[m] - 1]);
                        }
                    }
                }
            }
            assert forall|m: int| 0 <= m < i + 1 implies #[trigger] seg_at[m] < jumps@.len() || seg_at[m] == segs@.len() by {
                if m < i {
                    assert(seg_at[m] == seg_at0[m]);
                }
            }
            assert(labels_recorded(labels@, code@, idxs, jumps@, seg_at, i + 1)) by {
                assert forall|m: int| 0 <= m < i + 1 && (#[trigger] code@[m]) is Label implies exists|k: int|
                    0 <= k < labels@.len() && labels@[k].0 == code@[m]->Label_0.0 && labels@[k].1 as int == seg_at[m]
                        && labels@[k].2 as int == plain_run(code@, idxs, seg_begin(jumps@, seg_at[m]), m).len() by {
                    if m < i {
                        assert(seg_at[m] == seg_at0[m]);
                        let k = choose|k: int|
                            0 <= k < labels0.len() && labels0[k].0 == code@[m]->Label_0.0 && labels0[k].1 as int == seg_at0[m]
                                && labels0[k].2 as int == plain_run(code@, before, seg_begin(jumps0, seg_at0[m]), m).len();
                        assert(seg_begin(jumps@, seg_at[m]) == seg_begin(jumps0, seg_at0[m])) by {
                            if seg_at[m] > 0 {
                                assert(jumps@[seg_at[m] - 1] == jumps0[seg_at[m] - 1]);
                            }
                        }
                        lemma_plain_run_agree(code@, before, idxs, seg_begin(jumps0, seg_at0[m]), m);
                        assert(labels@[k] == labels0[k]);
                    } else {
                        let k = labels0.len() as int;
                        assert(labels@[k] == (code@[m]->Label_0.0, segs0.len() as usize, cur0.len() as u32));
                        assert(cur0.len() <= MAX_CODE);
                    }
                }
            }
            assert(lines_recorded(lines@, code@, idxs, jumps@, seg_at, i + 1)) by {
                assert forall|m: int| 0 <= m < i + 1 && (#[trigger] code@[m]) is LineNumber implies exists|k: int|
                    0 <= k < lines@.len() && lines@[k].2 == code@[m]->LineNumber_0 && lines@[k].0 as int == seg_at[m]
                        && lines@[k].1 as int == plain_run(code@, idxs, seg_begin(jumps@, seg_at[m]), m).len() by {
                    if m < i {
                        assert(seg_at[m] == seg_at0[m]);
                        let k = choose|k: int|
                            0 <= k < lines0.len() && lines0[k].2 == code@[m]->LineNumber_0 && lines0[k].0 as int == seg_at0[m]
                                && lines0[k].1 as int == plain_run(code@, before, seg_begin(jumps0, seg_at0[m]), m).len();
                        assert(seg_begin(jumps@, seg_at[m]) == seg_begin(jumps0, seg_at0[m])) by {
                            if seg_at[m] > 0 {
                                assert(jumps@[seg_at[m] - 1] == jumps0[seg_at[m] - 1]);
                            }
                        }
                        lemma_plain_run_agree(code@, before, idxs, seg_begin(jumps0, seg_at0[m]), m);
                        assert(lines@[k] == lines0[k]);
                    } else {
                        let k = lines0.len() as int;
                        assert(lines@[k] == (segs0.len() as usize, cur0.len() as u32, code@[m]->LineNumber_0));
                        assert(cur0.len() <= MAX_CODE);
                    }
                }
            }
            assert forall|j: int| 0 <= j < segs0.len() implies (#[trigger] segs0[j])@ == plain_run(
                code@,
                idxs,
                seg_begin(jumps0, j),
                jumps0[j] as int,
            ) by {
                lemma_plain_run_agree(code@, before, idxs, seg_begin(jumps0, j), jumps0[j] as int);
            }
            assert forall|j: int| 0 <= j < segs@.len() implies (#[trigger] segs@[j])@ == plain_run(
                code@,
                idxs,
                seg_begin(jumps@, j),
                jumps@[j] as int,
            ) by {
                if j < segs0.len() {
                    assert(segs@[j] == segs0[j]);
                    assert(jumps@[j] == jumps0[j]);
                    if j > 0 {
                        assert(jumps@[j - 1] == jumps0[j - 1]);
                    }
                }
            }
            assert forall|m: int|
                0 <= m < i + 1 && (#[trigger] code@[m]).entry() is Some implies pool_has_at(
                *cp,
                code@[m].entry()->Some_0,
                idxs[m],
            ) by {
                if m < i {
                    lemma_has_at_grows(c0, *cp, code@[m].entry()->Some_0, idxs[m]);
                }
            }
        }
        i = i + 1;
    }
    let ghost segs0 = segs@;
    segs.push(cur);
    proof {
        assert forall|j: int| 0 <= j < segs@.len() implies (#[trigger] segs@[j])@ == plain_run(
            code@,
            idxs,
            seg_begin(jumps@, j),
            seg_finish(jumps@, j, code@.len() as int),
        ) by {
            if j < segs0.len() {
                assert(segs@[j] == segs0[j]);
            }
        }
    }
    Ok(Pieces { segs, jumps, labels, lines, idxs: Ghost(idxs), seg_at: Ghost(seg_at) })
}

/// How the size of a jump instruction is decided.
pub open spec fn kind_of(insn: Instruction) -> JumpKind {
    match insn {
        Instruction::Jump(c, _) => if c == JumpCondition::Always {
            JumpKind::Unconditional
        } else {
            JumpKind::Conditional
        },
        Instruction::Jsr(_) => JumpKind::Unconditional,
        Instruction::TableSwitch { offsets, .. } => JumpKind::Switch((12 + 4 * offsets@.len()) as u32),
        Instruction::LookupSwitch { table, .. } => JumpKind::Switch((8 + 8 * table@.len()) as u32),
        _ => JumpKind::Unconditional,
    }
}

/// A switch whose operands stay within four-byte counts.
pub open spec fn switch_ok(insn: Instruction) -> bool {
    match insn {
        Instruction::TableSwitch { low, offsets, .. } => 1 <= offsets@.len() && low
            + offsets@.len() - 1 <= i32::MAX && 12 + 4 * offsets@.len() <= u32::MAX,
        Instruction::LookupSwitch { table, .. } => 8 + 8 * table@.len() <= u32::MAX,
        _ => true,
    }
}

proof fn lemma_branch_len(c: JumpCondition, wide: bool, off: int)
    ensures
        branch_bytes(c, wide, off).len() == jump_size(
            kind_of(Instruction::Jump(c, Label(0))),
            wide,
            0,
        ),
        jsr_bytes(wide, off).len() == jump_size(JumpKind::Unconditional, wide, 0),
{
}

/// Appends a jump whose opcode is at `pos`: a branch with offset `off`, a
/// switch with its labels at the positions `abs` gives. Fails on a switch
/// with a label that has no position, or with a repeated lookup key.
fn emit_jump(
    insn: &Instruction,
    wide: bool,
    pos: u32,
    off: i64,
    abs: &Vec<(u32, u32)>,
    out: &mut Vec<u8>,
) -> (r: Result<(), Error>)
    requires
        insn.is_jump(),
        switch_ok(*insn),
        pos <= MAX_CODE,
        forall|i: int| 0 <= i < abs@.len() ==> abs@[i].1 <= MAX_CODE,
        wide ==> insn is Jump || insn is Jsr,
        insn is Jump || insn is Jsr ==> (!wide ==> fits16(off as int)) && -MAX_CODE + 3 <= off
            <= MAX_CODE,
    ensures
        r is Ok ==> old(out)@.len() <= final(out)@.len() && final(out)@.subrange(0, old(out)@.len() as int) == old(out)@
            && jump_written(
            final(out)@.subrange(old(out)@.len() as int, final(out)@.len() as int),
            *insn,
            wide,
            pos as int,
            off as int,
            abs@,
        ) && final(out)@.len() - old(out)@.len() == jump_size(kind_of(*insn), wide, pos as int),
        r is Err ==> r->Err_0 is Invalid,
{
    let ghost o = out@;
    match insn {
        Instruction::Jump(c, _) => {
            write_branch(*c, wide, off as i32, out);
            proof {
                lemma_branch_len(*c, wide, off as int);
                assert(out@.subrange(o.len() as int, out@.len() as int) =~= branch_bytes(*c, wide, off as int));
            }
        },
        Instruction::Jsr(_) => {
            write_jsr(wide, off as i32, out);
            proof {
                lemma_branch_len(JumpCondition::Always, wide, off as int);
                assert(out@.subrange(o.len() as int, out@.len() as int) =~= jsr_bytes(wide, off as int));
            }
        },
        Instruction::TableSwitch { default, low, offsets } => {
            let def = match lookup_pos(abs, *default) {
                Some(p) => p,
                None => return Err(Error::Invalid("referenced label")),
            };
            proof {
                lemma_find_pos_bound(abs@, default.0, MAX_CODE as u32);
            }
            let mut ts: Vec<u32> = Vec::new();
            let mut i: usize = 0;
            while i < offsets.len()
                invariant
                    forall|k: int| 0 <= k < abs@.len() ==> abs@[k].1 <= MAX_CODE,
                    i <= offsets@.len(),
                    ts@.len() == i,
                    forall|k: int| 0 <= k < i ==> ts@[k] <= MAX_CODE,
                    forall|k: int|
                        0 <= k < i ==> find_pos(abs@, offsets@[k].0) == Some(#[trigger] ts@[k]),
                decreases offsets@.len() - i,
            {
                match lookup_pos(abs, offsets[i]) {
                    Some(p) => {
                        proof {
                            lemma_find_pos_bound(abs@, offsets@[i as int].0, MAX_CODE as u32);
                        }
                        ts.push(p);
                    },
                    None => return Err(Error::Invalid("referenced label")),
                }
                i = i + 1;
            }
            write_tableswitch(pos, def, *low, &ts, out);
            proof {
                assert(as_ints(ts@) =~= offsets@.map_values(|l: Label| label_at(abs@, l)));
                assert forall|k: int| 0 <= k < offsets@.len() implies find_pos(abs@, (#[trigger] offsets@[k]).0) is Some by {
                    assert(find_pos(abs@, offsets@[k].0) == Some(ts@[k]));
                }
                lemma_offsets_len(as_ints(ts@), pos as int);
                assert(out@.subrange(o.len() as int, out@.len() as int) =~= tableswitch_bytes(
                    pos as int,
                    def as int,
                    *low,
                    as_ints(ts@),
                ));
            }
        },
        Instruction::LookupSwitch { default, table } => {
            let def = match lookup_pos(abs, *default) {
                Some(p) => p,
                None => return Err(Error::Invalid("referenced label")),
            };
            proof {
                lemma_find_pos_bound(abs@, default.0, MAX_CODE as u32);
            }
            let sorted = sorted_table(table)?;
            let mut ps: Vec<(i32, u32)> = Vec::new();
            let mut i: usize = 0;
            while i < sorted.len()
                invariant
                    forall|k: int| 0 <= k < abs@.len() ==> abs@[k].1 <= MAX_CODE,
                    i <= sorted@.len(),
                    ps@.len() == i,
                    forall|k: int| 0 <= k < i ==> ps@[k].1 <= MAX_CODE,
                    forall|k: int|
                        0 <= k < i ==> (#[trigger] ps@[k]).0 == sorted@[k].0 && find_pos(
                            abs@,
                            sorted@[k].1.0,
                        ) == Some(ps@[k].1),
                decreases sorted@.len() - i,
            {
                let (key, l) = sorted[i];
                match lookup_pos(abs, l) {
                    Some(p) => {
                        proof {
                            lemma_find_pos_bound(abs@, l.0, MAX_CODE as u32);
                        }
                        ps.push((key, p));
                    },
                    None => return Err(Error::Invalid("referenced label")),
                }
                i = i + 1;
            }
            write_lookupswitch(pos, def, &ps, out);
            proof {
                assert(pairs_as_ints(ps@) =~= placed(sorted@, abs@));
                lemma_pairs_len(pairs_as_ints(ps@), pos as int);
                let bytes = out@.subrange(o.len() as int, out@.len() as int);
                assert(bytes =~= lookupswitch_bytes(pos as int, def as int, pairs_as_ints(ps@)));
                assert forall|k: int| 0 <= k < table@.len() implies find_pos(abs@, (#[trigger] table@[k]).1.0) is Some by {
                    assert(table@.contains(table@[k]));
                    assert(sorted@.contains(table@[k]));
                    let m = choose|m: int| 0 <= m < sorted@.len() && sorted@[m] == table@[k];
                    assert(find_pos(abs@, sorted@[m].1.0) == Some(ps@[m].1));
                }
                assert(bytes == lookupswitch_bytes(
                    pos as int,
                    label_at(abs@, *default),
                    placed(sorted@, abs@),
                ));
            }
        },
        _ => {},
    }
    proof {
        assert(out@.subrange(0, o.len() as int) =~= o);
    }
    Ok(())
}

proof fn lemma_find_pos_unique(abs: Seq<(u32, u32)>, i: int)
    requires
        0 <= i < abs.len(),
        forall|a: int, b: int| 0 <= a < b < abs.len() ==> abs[a].0 != abs[b].0,
    ensures
        find_pos(abs, abs[i].0) == Some(abs[i].1),
    decreases abs.len(),
{
    if i > 0 {
        lemma_find_pos_unique(abs.drop_first(), i - 1);
    }
}

/// The label a branch goes to.
pub open spec fn branch_target(insn: Instruction) -> Label {
    match insn {
        Instruction::Jump(_, l) => l,
        Instruction::Jsr(l) => l,
        _ => Label(0),
    }
}

/// Sizes each jump and finds where each branch's target fell.
fn make_slots(code: &Vec<Instruction>, p: &Pieces) -> (r: Result<(Vec<u32>, Vec<JumpSlot>), Error>)
    requires
        p.wf(code@),
    ensures
        r is Ok ==> {
            let (lens, slots) = r->Ok_0;
            &&& shape_ok(lens@, slots@)
            &&& slots@.len() == p.jumps@.len()
            &&& forall|j: int| 0 <= j < lens@.len() ==> #[trigger] lens@[j] == p.segs@[j]@.len()
            &&& forall|j: int|
                0 <= j < slots@.len() ==> {
                    let insn = code@[p.jumps@[j] as int];
                    &&& #[trigger] slots@[j].kind == kind_of(insn)
                    &&& switch_ok(insn)
                    &&& (insn is Jump || insn is Jsr) ==> exists|i: int|
                        0 <= i < p.labels@.len() && p.labels@[i].0 == branch_target(insn).0
                            && p.labels@[i].1 == slots@[j].target_seg && p.labels@[i].2
                            == slots@[j].target_off
                }
        },
        r is Err ==> r->Err_0 is Invalid,
{
    let mut lens: Vec<u32> = Vec::new();
    let mut i: usize = 0;
    while i < p.segs.len()
        invariant
            p.wf(code@),
            i <= p.segs@.len(),
            lens@.len() == i,
            forall|j: int| 0 <= j < i ==> #[trigger] lens@[j] == p.segs@[j]@.len(),
        decreases p.segs@.len() - i,
    {
        lens.push(p.segs[i].len() as u32);
        i = i + 1;
    }
    let mut slots: Vec<JumpSlot> = Vec::new();
    let mut j: usize = 0;
    while j < p.jumps.len()
        invariant
            p.wf(code@),
            lens@.len() == p.segs@.len(),
            forall|k: int| 0 <= k < lens@.len() ==> #[trigger] lens@[k] == p.segs@[k]@.len(),
            j <= p.jumps@.len(),
            slots@.len() == j,
            p.segs@.len() == p.jumps@.len() + 1,
            forall|k: int|
                0 <= k < j ==> {
                    &&& #[trigger] slots@[k].target_seg < lens@.len()
                    &&& slots@[k].target_off <= lens@[slots@[k].target_seg as int]
                },
            forall|k: int|
                0 <= k < j ==> {
                    let insn = code@[p.jumps@[k] as int];
                    &&& #[trigger] slots@[k].kind == kind_of(insn)
                    &&& switch_ok(insn)
                    &&& (insn is Jump || insn is Jsr) ==> exists|i: int|
                        0 <= i < p.labels@.len() && p.labels@[i].0 == branch_target(insn).0
                            && p.labels@[i].1 == slots@[k].target_seg && p.labels@[i].2
                            == slots@[k].target_off
                },
        decreases p.jumps@.len() - j,
    {
        let insn = &code[p.jumps[j]];
        let slot = match insn {
            Instruction::Jump(_, l) | Instruction::Jsr(l) => {
                let c = match insn {
                    Instruction::Jump(c, _) => *c,
                    _ => JumpCondition::Always,
                };
                match find_label(&p.labels, l.0) {
                    Some((seg, off)) => JumpSlot {
                        kind: if c == JumpCondition::Always {
                            JumpKind::Unconditional
                        } else {
                            JumpKind::Conditional
                        },
                        target_seg: seg,
                        target_off: off,
                    },
                    None => return Err(Error::Invalid("referenced label")),
                }
            },
            Instruction::TableSwitch { default: _, low, offsets } => {
                let n = offsets.len();
                if n == 0 || n > 0x3FFF_0000 || *low as i64 + n as i64 - 1 > i32::MAX as i64 {
                    return Err(Error::Invalid("tableswitch"));
                }
                JumpSlot { kind: JumpKind::Switch(12 + 4 * n as u32), target_seg: 0, target_off: 0 }
            },
            Instruction::LookupSwitch { default: _, table } => {
                let n = table.len();
                if n > 0x1FFF_0000 {
                    return Err(Error::Invalid("lookupswitch"));
                }
                JumpSlot { kind: JumpKind::Switch(8 + 8 * n as u32), target_seg: 0, target_off: 0 }
            },
            _ => {
                return Err(Error::Invalid("jump"));
            },
        };
        slots.push(slot);
        j = j + 1;
    }
    Ok((lens, slots))
}

/// Appends the bytes of `v`.
fn append_bytes(out: &mut Vec<u8>, v: &Vec<u8>)
    ensures
        final(out)@ == old(out)@ + v@,
{
    let ghost o = out@;
    let mut i: usize = 0;
    while i < v.len()
        invariant
            i <= v@.len(),
            out@ == o + v@.subrange(0, i as int),
        decreases v@.len() - i,
    {
        out.push(v[i]);
        i = i + 1;
        assert(out@ =~= o + v@.subrange(0, i as int));
    }
    assert(v@.subrange(0, i as int) =~= v@);
}

/// A method's code array, with the position of each label and of each
/// line-number entry, and, as ghost values, the layout that produced it:
/// the length of each run of fixed bytes, each jump's slot and width, and
/// which instruction each jump was.
pub struct Assembled {
    pub bytes: Vec<u8>,
    /// Label id and position.
    pub labels: Vec<(u32, u32)>,
    /// Position and line number.
    pub lines: Vec<(u32, u16)>,
    pub lens: Ghost<Seq<u32>>,
    pub slots: Ghost<Seq<JumpSlot>>,
    pub widths: Ghost<Seq<bool>>,
    pub jumps: Ghost<Seq<usize>>,
    /// The pool index each instruction's constant was written with.
    pub idxs: Ghost<Seq<u16>>,
    /// The segment each instruction falls in.
    pub seg_at: Ghost<Seq<int>>,
}

/// No switch among the instructions.
pub open spec fn has_no_switch(code: Seq<Instruction>) -> bool {
    forall|i: int| 0 <= i < code.len() ==> !(code[i] is TableSwitch) && !(#[trigger] code[i] is LookupSwitch)
}

impl Assembled {
    /// The code array is the given instructions laid out: between the jumps
    /// stand the encodings of the other instructions, each jump's bytes stand
    /// where the layout puts its opcode, each branch goes to the position of
    /// its label, widths are chosen as [`widths_ok`] says, and without
    /// switches a branch is wide only when it must be.
    pub open spec fn laid_out(&self, code: Seq<Instruction>) -> bool {
        let lens = self.lens@;
        let slots = self.slots@;
        let w = self.widths@;
        let jumps = self.jumps@;
        &&& shape_ok(lens, slots)
        &&& widths_ok(lens, slots, w)
        &&& self.bytes@.len() == code_end(lens, slots, w)
        &&& jumps.len() == slots.len()
        &&& forall|j: int|
            0 <= j < slots.len() ==> {
                let insn = code[jumps[j] as int];
                &&& #[trigger] jumps[j] < code.len()
                &&& insn.is_jump()
                &&& slots[j].kind == kind_of(insn)
                &&& jump_written(
                    self.bytes@.subrange(
                        jump_pos(lens, slots, w, j),
                        seg_start(lens, slots, w, j + 1),
                    ),
                    insn,
                    w[j],
                    jump_pos(lens, slots, w, j),
                    offset(lens, slots, w, j),
                    self.labels@,
                )
                &&& (insn is Jump || insn is Jsr) ==> find_pos(
                    self.labels@,
                    branch_target(insn).0,
                ) == Some((seg_start(lens, slots, w, slots[j].target_seg as int)
                    + slots[j].target_off) as u32)
            }
        &&& has_no_switch(code) ==> crate::layout::wide_only_when_needed(lens, slots, w)
        &&& self.idxs@.len() == code.len()
        &&& segments_of(jumps, self.seg_at@, code.len() as int)
        &&& forall|i: int|
            0 <= i < code.len() && (#[trigger] code[i]) is Label ==> label_offset_is(
                self.labels@,
                code[i]->Label_0.0,
                seg_start(lens, slots, w, self.seg_at@[i]) + plain_run(
                    code,
                    self.idxs@,
                    seg_begin(jumps, self.seg_at@[i]),
                    i,
                ).len(),
            )
        &&& forall|a: int, b: int| 0 <= a < b < jumps.len() ==> jumps[a] < jumps[b]
        &&& forall|j: int|
            0 <= j <= slots.len() ==> #[trigger] self.bytes@.subrange(
                seg_start(lens, slots, w, j),
                seg_start(lens, slots, w, j) + lens[j],
            ) == plain_run(
                code,
                self.idxs@,
                seg_begin(jumps, j),
                seg_finish(jumps, j, code.len() as int),
            )
    }
}

/// What holds between the pieces of the code, the slots of its jumps, the
/// chosen widths and the segment starts.
#[verifier::opaque]
spec fn plan_ok(
    code: Seq<Instruction>,
    p: Pieces,
    lens: Seq<u32>,
    slots: Seq<JumpSlot>,
    w: Seq<bool>,
    starts: Seq<u64>,
) -> bool {
    &&& p.wf(code)
    &&& shape_ok(lens, slots)
    &&& slots.len() == p.jumps@.len()
    &&& widths_ok(lens, slots, w)
    &&& code_end(lens, slots, w) <= MAX_CODE
    &&& forall|k: int| 0 <= k < lens.len() ==> #[trigger] lens[k] == p.segs@[k]@.len()
    &&& starts.len() == lens.len()
    &&& forall|k: int| 0 <= k < lens.len() ==> #[trigger] starts[k] == seg_start(lens, slots, w, k)
    &&& forall|k: int|
        0 <= k < slots.len() ==> {
            let insn = code[p.jumps@[k] as int];
            &&& #[trigger] slots[k].kind == kind_of(insn)
            &&& switch_ok(insn)
            &&& (insn is Jump || insn is Jsr) ==> exists|i: int|
                0 <= i < p.labels@.len() && p.labels@[i].0 == branch_target(insn).0
                    && p.labels@[i].1 == slots[k].target_seg && p.labels@[i].2
                    == slots[k].target_off
        }
}

proof fn lemma_plan_basics(
    code: Seq<Instruction>,
    p: Pieces,
    lens: Seq<u32>,
    slots: Seq<JumpSlot>,
    w: Seq<bool>,
    starts: Seq<u64>,
)
    requires
        plan_ok(code, p, lens, slots, w, starts),
    ensures
        shape_ok(lens, slots),
        p.segs@.len() == lens.len(),
        w.len() == slots.len(),
        lens[slots.len() as int] == p.segs@[slots.len() as int]@.len(),
        code_end(lens, slots, w) <= MAX_CODE,
{
    reveal(plan_ok);
}

/// The final position of every label.
fn place_labels(
    Ghost(code): Ghost<Seq<Instruction>>,
    p: &Pieces,
    Ghost(lens): Ghost<Seq<u32>>,
    Ghost(slots): Ghost<Seq<JumpSlot>>,
    Ghost(w): Ghost<Seq<bool>>,
    starts: &Vec<u64>,
) -> (abs: Vec<(u32, u32)>)
    requires
        plan_ok(code, *p, lens, slots, w, starts@),
    ensures
        abs@.len() == p.labels@.len(),
        forall|k: int|
            0 <= k < abs@.len() ==> (#[trigger] abs@[k]).0 == p.labels@[k].0 && abs@[k].1
                == seg_start(lens, slots, w, p.labels@[k].1 as int) + p.labels@[k].2,
        forall|k: int| 0 <= k < abs@.len() ==> (#[trigger] abs@[k]).1 <= code_end(lens, slots, w),
        forall|a: int, b: int| 0 <= a < b < abs@.len() ==> abs@[a].0 != abs@[b].0,
{
    proof {
        reveal(plan_ok);
    }
    let mut abs: Vec<(u32, u32)> = Vec::new();
    let mut i: usize = 0;
    while i < p.labels.len()
        invariant
            plan_ok(code, *p, lens, slots, w, starts@),
            i <= p.labels@.len(),
            abs@.len() == i,
            forall|k: int|
                0 <= k < i ==> (#[trigger] abs@[k]).0 == p.labels@[k].0 && abs@[k].1 == seg_start(
                    lens,
                    slots,
                    w,
                    p.labels@[k].1 as int,
                ) + p.labels@[k].2,
            forall|k: int| 0 <= k < i ==> (#[trigger] abs@[k]).1 <= code_end(lens, slots, w),
        decreases p.labels@.len() - i,
    {
        proof {
            reveal(plan_ok);
        }
        let (id, s, o) = p.labels[i];
        proof {
            assert(p.labels@[i as int].1 < p.segs@.len());
            lemma_seg_start_mono(lens, slots, w, s as int, slots.len() as int);
        }
        abs.push((id, (starts[s] + o as u64) as u32));
        i = i + 1;
    }
    proof {
        assert forall|a: int, b: int| 0 <= a < b < abs@.len() implies abs@[a].0 != abs@[b].0 by {
            assert(p.labels@[a].0 != p.labels@[b].0);
        }
    }
    abs
}

/// The final position of every line-number entry.
fn place_lines(
    Ghost(code): Ghost<Seq<Instruction>>,
    p: &Pieces,
    Ghost(lens): Ghost<Seq<u32>>,
    Ghost(slots): Ghost<Seq<JumpSlot>>,
    Ghost(w): Ghost<Seq<bool>>,
    starts: &Vec<u64>,
) -> (lines: Vec<(u32, u16)>)
    requires
        plan_ok(code, *p, lens, slots, w, starts@),
    ensures
        lines@.len() == p.lines@.len(),
        forall|k: int|
            0 <= k < lines@.len() ==> (#[trigger] lines@[k]).1 == p.lines@[k].2 && lines@[k].0
                == seg_start(lens, slots, w, p.lines@[k].0 as int) + p.lines@[k].1,
        forall|k: int| 0 <= k < lines@.len() ==> (#[trigger] lines@[k]).0 <= code_end(lens, slots, w),
{
    proof {
        reveal(plan_ok);
    }
    let mut lines: Vec<(u32, u16)> = Vec::new();
    let mut i: usize = 0;
    while i < p.lines.len()
        invariant
            plan_ok(code, *p, lens, slots, w, starts@),
            i <= p.lines@.len(),
            lines@.len() == i,
            forall|k: int|
                0 <= k < i ==> (#[trigger] lines@[k]).1 == p.lines@[k].2 && lines@[k].0
                    == seg_start(lens, slots, w, p.lines@[k].0 as int) + p.lines@[k].1,
            forall|k: int| 0 <= k < i ==> (#[trigger] lines@[k]).0 <= code_end(lens, slots, w),
        decreases p.lines@.len() - i,
    {
        proof {
            reveal(plan_ok);
        }
        let (s, o, n) = p.lines[i];
        proof {
            assert(p.lines@[i as int].0 < p.segs@.len());
            lemma_seg_start_mono(lens, slots, w, s as int, slots.len() as int);
        }
        lines.push(((starts[s] + o as u64) as u32, n));
        i = i + 1;
    }
    lines
}

/// `out` holds the jumps before `j` where the layout puts them.
#[verifier::opaque]
spec fn jumps_written_before(
    out: Seq<u8>,
    code: Seq<Instruction>,
    jumps: Seq<usize>,
    lens: Seq<u32>,
    slots: Seq<JumpSlot>,
    w: Seq<bool>,
    abs: Seq<(u32, u32)>,
    j: int,
) -> bool {
    forall|k: int|
        0 <= k < j ==> jump_written(
            out.subrange(jump_pos(lens, slots, w, k), seg_start(lens, slots, w, k + 1)),
            #[trigger] code[jumps[k] as int],
            w[k],
            jump_pos(lens, slots, w, k),
            offset(lens, slots, w, k),
            abs,
        )
}

proof fn lemma_written_prefix(
    before: Seq<u8>,
    out: Seq<u8>,
    code: Seq<Instruction>,
    jumps: Seq<usize>,
    lens: Seq<u32>,
    slots: Seq<JumpSlot>,
    w: Seq<bool>,
    abs: Seq<(u32, u32)>,
    j: int,
)
    requires
        shape_ok(lens, slots),
        0 <= j <= slots.len(),
        before.len() == seg_start(lens, slots, w, j),
        before.len() <= out.len(),
        out.subrange(0, before.len() as int) == before,
        jumps_written_before(before, code, jumps, lens, slots, w, abs, j),
    ensures
        jumps_written_before(out, code, jumps, lens, slots, w, abs, j),
{
    reveal(jumps_written_before);
    assert forall|k: int| 0 <= k < j implies jump_written(
        out.subrange(jump_pos(lens, slots, w, k), seg_start(lens, slots, w, k + 1)),
        #[trigger] code[jumps[k] as int],
        w[k],
        jump_pos(lens, slots, w, k),
        offset(lens, slots, w, k),
        abs,
    ) by {
        lemma_seg_start_mono(lens, slots, w, k + 1, j);
        lemma_seg_start_mono(lens, slots, w, k, k + 1);
        lemma_seg_start_mono(lens, slots, w, 0, k);
        assert(out.subrange(jump_pos(lens, slots, w, k), seg_start(lens, slots, w, k + 1))
            =~= before.subrange(jump_pos(lens, slots, w, k), seg_start(lens, slots, w, k + 1)));
    }
}

proof fn lemma_written_none(
    out: Seq<u8>,
    code: Seq<Instruction>,
    jumps: Seq<usize>,
    lens: Seq<u32>,
    slots: Seq<JumpSlot>,
    w: Seq<bool>,
    abs: Seq<(u32, u32)>,
)
    ensures
        jumps_written_before(out, code, jumps, lens, slots, w, abs, 0),
{
    reveal(jumps_written_before);
}

proof fn lemma_written_step(
    out: Seq<u8>,
    code: Seq<Instruction>,
    jumps: Seq<usize>,
    lens: Seq<u32>,
    slots: Seq<JumpSlot>,
    w: Seq<bool>,
    abs: Seq<(u32, u32)>,
    j: int,
)
    requires
        0 <= j,
        jumps_written_before(out, code, jumps, lens, slots, w, abs, j),
        jump_written(
            out.subrange(jump_pos(lens, slots, w, j), seg_start(lens, slots, w, j + 1)),
            code[jumps[j] as int],
            w[j],
            jump_pos(lens, slots, w, j),
            offset(lens, slots, w, j),
            abs,
        ),
    ensures
        jumps_written_before(out, code, jumps, lens, slots, w, abs, j + 1),
{
    reveal(jumps_written_before);
}

/// `out` holds segments `0..j` where the layout puts them.
#[verifier::opaque]
spec fn segs_written_before(
    out: Seq<u8>,
    segs: Seq<Seq<u8>>,
    lens: Seq<u32>,
    slots: Seq<JumpSlot>,
    w: Seq<bool>,
    j: int,
) -> bool {
    forall|k: int|
        0 <= k < j ==> #[trigger] out.subrange(
            seg_start(lens, slots, w, k),
            seg_start(lens, slots, w, k) + lens[k],
        ) == segs[k]
}

proof fn lemma_segs_prefix(
    before: Seq<u8>,
    out: Seq<u8>,
    segs: Seq<Seq<u8>>,
    lens: Seq<u32>,
    slots: Seq<JumpSlot>,
    w: Seq<bool>,
    j: int,
)
    requires
        shape_ok(lens, slots),
        0 <= j <= slots.len() + 1,
        j <= slots.len() ==> before.len() >= seg_start(lens, slots, w, j),
        j == slots.len() + 1 ==> before.len() >= code_end(lens, slots, w),
        before.len() <= out.len(),
        out.subrange(0, before.len() as int) == before,
        segs_written_before(before, segs, lens, slots, w, j),
    ensures
        segs_written_before(out, segs, lens, slots, w, j),
{
    reveal(segs_written_before);
    assert forall|k: int| 0 <= k < j implies #[trigger] out.subrange(
        seg_start(lens, slots, w, k),
        seg_start(lens, slots, w, k) + lens[k],
    ) == segs[k] by {
        lemma_seg_start_mono(lens, slots, w, 0, k);
        if j <= slots.len() {
            lemma_seg_start_mono(lens, slots, w, k, j);
        } else {
            lemma_seg_start_mono(lens, slots, w, k, slots.len() as int);
        }
        assert(before.subrange(seg_start(lens, slots, w, k), seg_start(lens, slots, w, k) + lens[k])
            == segs[k]);
        assert(out.subrange(seg_start(lens, slots, w, k), seg_start(lens, slots, w, k) + lens[k])
            =~= before.subrange(seg_start(lens, slots, w, k), seg_start(lens, slots, w, k) + lens[k]));
    }
}

proof fn lemma_segs_step(
    out: Seq<u8>,
    segs: Seq<Seq<u8>>,
    lens: Seq<u32>,
    slots: Seq<JumpSlot>,
    w: Seq<bool>,
    j: int,
)
    requires
        0 <= j,
        segs_written_before(out, segs, lens, slots, w, j),
        out.subrange(seg_start(lens, slots, w, j), seg_start(lens, slots, w, j) + lens[j]) == segs[j],
    ensures
        segs_written_before(out, segs, lens, slots, w, j + 1),
{
    reveal(segs_written_before);
}

proof fn lemma_segs_none(
    out: Seq<u8>,
    segs: Seq<Seq<u8>>,
    lens: Seq<u32>,
    slots: Seq<JumpSlot>,
    w: Seq<bool>,
)
    ensures
        segs_written_before(out, segs, lens, slots, w, 0),
{
    reveal(segs_written_before);
}

spec fn seg_views(p: Pieces) -> Seq<Seq<u8>> {
    p.segs@.map_values(|v: Vec<u8>| v@)
}

/// Appends segment `j` and the jump after it.
fn emit_one(
    code: &Vec<Instruction>,
    p: &Pieces,
    lens: &Vec<u32>,
    slots: &Vec<JumpSlot>,
    w: &Vec<bool>,
    starts: &Vec<u64>,
    abs: &Vec<(u32, u32)>,
    j: usize,
    out: &mut Vec<u8>,
) -> (r: Result<(), Error>)
    requires
        plan_ok(code@, *p, lens@, slots@, w@, starts@),
        forall|k: int| 0 <= k < abs@.len() ==> (#[trigger] abs@[k]).1 <= MAX_CODE,
        j < slots@.len(),
        old(out)@.len() == seg_start(lens@, slots@, w@, j as int),
    ensures
        r is Ok ==> final(out)@.subrange(
            seg_start(lens@, slots@, w@, j as int),
            seg_start(lens@, slots@, w@, j as int) + lens@[j as int],
        ) == p.segs@[j as int]@,
        r is Ok ==> final(out)@.len() == seg_start(lens@, slots@, w@, j + 1) && final(out)@.subrange(
            0,
            old(out)@.len() as int,
        ) == old(out)@ && jump_written(
            final(out)@.subrange(jump_pos(lens@, slots@, w@, j as int), seg_start(lens@, slots@, w@, j + 1)),
            code@[p.jumps@[j as int] as int],
            w@[j as int],
            jump_pos(lens@, slots@, w@, j as int),
            offset(lens@, slots@, w@, j as int),
            abs@,
        ),
        r is Err ==> r->Err_0 is Invalid,
{
    proof {
        reveal(plan_ok);
    }
    let ghost before = out@;
    append_bytes(out, &p.segs[j]);
    let slot = slots[j];
    proof {
        lemma_seg_start_mono(lens@, slots@, w@, j as int, slots@.len() as int);
        lemma_seg_start_mono(lens@, slots@, w@, j + 1, slots@.len() as int);
        assert(slot.target_seg < lens@.len());
        lemma_seg_start_mono(lens@, slots@, w@, slot.target_seg as int, slots@.len() as int);
        assert(p.jumps@[j as int] < code@.len());
    }
    let pos = starts[j] + lens[j] as u64;
    let off: i64 = (starts[slot.target_seg] + slot.target_off as u64) as i64 - pos as i64;
    let ghost mid = out@;
    emit_jump(&code[p.jumps[j]], w[j], pos as u32, off, abs, out)?;
    proof {
        assert(out@.subrange(0, before.len() as int) =~= before);
        assert(out@.subrange(0, mid.len() as int) == mid);
        assert(out@.subrange(before.len() as int, before.len() + lens@[j as int]) =~= mid.subrange(
            before.len() as int,
            before.len() + lens@[j as int],
        ));
        assert(mid.subrange(before.len() as int, before.len() + lens@[j as int]) =~= p.segs@[j as int]@);
    }
    Ok(())
}

/// Writes the segments with each jump between them.
fn emit_all(
    code: &Vec<Instruction>,
    p: &Pieces,
    lens: &Vec<u32>,
    slots: &Vec<JumpSlot>,
    w: &Vec<bool>,
    starts: &Vec<u64>,
    abs: &Vec<(u32, u32)>,
) -> (r: Result<Vec<u8>, Error>)
    requires
        plan_ok(code@, *p, lens@, slots@, w@, starts@),
        forall|k: int| 0 <= k < abs@.len() ==> (#[trigger] abs@[k]).1 <= MAX_CODE,
    ensures
        r is Ok ==> r->Ok_0@.len() == code_end(lens@, slots@, w@) && jumps_written_before(
            r->Ok_0@,
            code@,
            p.jumps@,
            lens@,
            slots@,
            w@,
            abs@,
            slots@.len() as int,
        ) && segs_written_before(r->Ok_0@, seg_views(*p), lens@, slots@, w@, slots@.len() + 1 as int),
        r is Err ==> r->Err_0 is Invalid,
{
    let mut out: Vec<u8> = Vec::new();
    let mut j: usize = 0;
    proof {
        lemma_plan_basics(code@, *p, lens@, slots@, w@, starts@);
        lemma_written_none(out@, code@, p.jumps@, lens@, slots@, w@, abs@);
        lemma_segs_none(out@, seg_views(*p), lens@, slots@, w@);
    }
    while j < slots.len()
        invariant
            plan_ok(code@, *p, lens@, slots@, w@, starts@),
            forall|k: int| 0 <= k < abs@.len() ==> (#[trigger] abs@[k]).1 <= MAX_CODE,
            j <= slots@.len(),
            out@.len() == seg_start(lens@, slots@, w@, j as int),
            jumps_written_before(out@, code@, p.jumps@, lens@, slots@, w@, abs@, j as int),
            segs_written_before(out@, seg_views(*p), lens@, slots@, w@, j as int),
        decreases slots@.len() - j,
    {
        let ghost before = out@;
        emit_one(code, p, lens, slots, w, starts, abs, j, &mut out)?;
        proof {
            lemma_plan_basics(code@, *p, lens@, slots@, w@, starts@);
            lemma_written_prefix(before, out@, code@, p.jumps@, lens@, slots@, w@, abs@, j as int);
            lemma_written_step(out@, code@, p.jumps@, lens@, slots@, w@, abs@, j as int);
            lemma_segs_prefix(before, out@, seg_views(*p), lens@, slots@, w@, j as int);
            assert(seg_views(*p)[j as int] == p.segs@[j as int]@);
            lemma_segs_step(out@, seg_views(*p), lens@, slots@, w@, j as int);
        }
        j = j + 1;
    }
    let ghost before = out@;
    proof {
        lemma_plan_basics(code@, *p, lens@, slots@, w@, starts@);
    }
    append_bytes(&mut out, &p.segs[j]);
    proof {
        assert(out@.subrange(0, before.len() as int) =~= before);
        lemma_written_prefix(before, out@, code@, p.jumps@, lens@, slots@, w@, abs@, j as int);
        lemma_segs_prefix(before, out@, seg_views(*p), lens@, slots@, w@, j as int);
        assert(seg_views(*p)[j as int] == p.segs@[j as int]@);
        assert(out@.subrange(
            seg_start(lens@, slots@, w@, j as int),
            seg_start(lens@, slots@, w@, j as int) + lens@[j as int],
        ) =~= p.segs@[j as int]@);
        lemma_segs_step(out@, seg_views(*p), lens@, slots@, w@, j as int);
    }
    Ok(out)
}

/// The label `id` has a recorded position, and it is `off`.
pub open spec fn label_offset_is(abs: Seq<(u32, u32)>, id: u32, off: int) -> bool {
    find_pos(abs, id) is Some && find_pos(abs, id)->Some_0 as int == off
}

/// Each label's position is the byte offset at which it stands.
proof fn lemma_label_offsets(
    code: Seq<Instruction>,
    labels: Seq<(u32, usize, u32)>,
    abs: Seq<(u32, u32)>,
    lens: Seq<u32>,
    slots: Seq<JumpSlot>,
    w: Seq<bool>,
    idxs: Seq<u16>,
    jumps: Seq<usize>,
    seg_at: Seq<int>,
)
    requires
        labels_recorded(labels, code, idxs, jumps, seg_at, code.len() as int),
        abs.len() == labels.len(),
        forall|k: int|
            0 <= k < abs.len() ==> (#[trigger] abs[k]).0 == labels[k].0 && abs[k].1 == seg_start(
                lens,
                slots,
                w,
                labels[k].1 as int,
            ) + labels[k].2,
        forall|a: int, b: int| 0 <= a < b < abs.len() ==> abs[a].0 != abs[b].0,
    ensures
        forall|i: int|
            0 <= i < code.len() && (#[trigger] code[i]) is Label ==> label_offset_is(abs, code[i]->Label_0.0,
                seg_start(lens, slots, w, seg_at[i]) + plain_run(code, idxs, seg_begin(jumps, seg_at[i]), i).len()),
{
    assert forall|i: int| 0 <= i < code.len() && (#[trigger] code[i]) is Label implies label_offset_is(abs, code[i]->Label_0.0,
        seg_start(lens, slots, w, seg_at[i]) + plain_run(code, idxs, seg_begin(jumps, seg_at[i]), i).len()) by {
        let k = choose|k: int|
            0 <= k < labels.len() && labels[k].0 == code[i]->Label_0.0 && labels[k].1 as int == seg_at[i]
                && labels[k].2 as int == plain_run(code, idxs, seg_begin(jumps, seg_at[i]), i).len();
        lemma_find_pos_unique(abs, k);
        assert(abs[k].0 == labels[k].0);
    }
}

/// Lays out the code array: encodes every instruction but the jumps,
/// chooses each jump's width, then writes the jumps at their final positions.
pub fn assemble(code: &Vec<Instruction>, cp: &mut VecCp) -> (r: Result<Assembled, Error>)
    requires
        old(cp).wf(),
    ensures
        final(cp).wf(),
        pool_grows(*old(cp), *final(cp)),
        r is Ok ==> r->Ok_0.laid_out(code@),
        r is Ok ==> constants_at(code@, r->Ok_0.idxs@, *final(cp)),
        r is Err ==> r->Err_0 is Invalid,
{
    let p = split(code, cp)?;
    let (lens, slots) = make_slots(code, &p)?;
    let w = choose_widths(&lens, &slots)?;
    let starts = segment_starts(&lens, &slots, &w)?;
    proof {
        if has_no_switch(code@) {
            assert forall|j: int| 0 <= j < slots@.len() implies !(#[trigger] slots@[j].kind is Switch) by {
                assert(p.jumps@[j] < code@.len());
            }
        }
    }
    proof {
        reveal(plan_ok);
    }
    let abs = place_labels(Ghost(code@), &p, Ghost(lens@), Ghost(slots@), Ghost(w@), &starts);
    let lines = place_lines(Ghost(code@), &p, Ghost(lens@), Ghost(slots@), Ghost(w@), &starts);
    let out = emit_all(code, &p, &lens, &slots, &w, &starts, &abs)?;
    proof {
        lemma_label_offsets(code@, p.labels@, abs@, lens@, slots@, w@, p.idxs@, p.jumps@, p.seg_at@);
    }
    proof {
        reveal(segs_written_before);
        assert forall|j: int| 0 <= j <= slots@.len() implies #[trigger] out@.subrange(
            seg_start(lens@, slots@, w@, j),
            seg_start(lens@, slots@, w@, j) + lens@[j],
        ) == plain_run(
            code@,
            p.idxs@,
            seg_begin(p.jumps@, j),
            seg_finish(p.jumps@, j, code@.len() as int),
        ) by {
            assert(seg_views(p)[j] == p.segs@[j]@);
        }
    }
    proof {
        reveal(jumps_written_before);
        assert forall|k: int| 0 <= k < slots@.len() implies {
            let insn = #[trigger] code@[p.jumps@[k] as int];
            (insn is Jump || insn is Jsr) ==> find_pos(abs@, branch_target(insn).0) == Some(
                (seg_start(lens@, slots@, w@, slots@[k].target_seg as int)
                    + slots@[k].target_off) as u32)
        } by {
            let insn = code@[p.jumps@[k] as int];
            if insn is Jump || insn is Jsr {
                let i = choose|i: int|
                    0 <= i < p.labels@.len() && p.labels@[i].0 == branch_target(insn).0
                        && p.labels@[i].1 == slots@[k].target_seg && p.labels@[i].2
                        == slots@[k].target_off;
                lemma_find_pos_unique(abs@, i);
            }
        }
    }
    let result = Assembled {
        bytes: out,
        labels: abs,
        lines,
        lens: Ghost(lens@),
        slots: Ghost(slots@),
        widths: Ghost(w@),
        jumps: Ghost(p.jumps@),
        idxs: p.idxs,
        seg_at: p.seg_at,
    };
    Ok(result)
}

/// An entry of a LocalVariableTable or LocalVariableTypeTable: start, length,
/// name, descriptor or signature, slot.
pub type LocalEntry = (u16, u16, Seq<u8>, Seq<u8>, u16);

/// The range of a variable, if both its labels have positions that fit two
/// bytes and its end does not come before its start.
pub open spec fn var_range(v: LocalVariable, abs: Seq<(u32, u32)>) -> Option<(u16, u16)> {
    match (find_pos(abs, v.start.0), find_pos(abs, v.end.0)) {
        (Some(s), Some(e)) => if s <= e <= 0xFFFF {
            Some((s as u16, (e - s) as u16))
        } else {
            None
        },
        _ => None,
    }
}

/// The LocalVariableTable entries of the variables that have a descriptor, in order.
pub open spec fn descriptor_entries(vs: Seq<LocalVariable>, abs: Seq<(u32, u32)>) -> Seq<LocalEntry>
    decreases vs.len(),
{
    if vs.len() == 0 {
        Seq::empty()
    } else {
        let v = vs.last();
        let rest = descriptor_entries(vs.drop_last(), abs);
        match v.descriptor {
            Some(d) => {
                let (s, l) = var_range(v, abs)->Some_0;
                rest.push((s, l, v.name@, d@, v.index))
            },
            None => rest,
        }
    }
}

/// The LocalVariableTypeTable entries of the variables that have a signature, in order.
pub open spec fn signature_entries(vs: Seq<LocalVariable>, abs: Seq<(u32, u32)>) -> Seq<LocalEntry>
    decreases vs.len(),
{
    if vs.len() == 0 {
        Seq::empty()
    } else {
        let v = vs.last();
        let rest = signature_entries(vs.drop_last(), abs);
        match v.signature {
            Some(g) => {
                let (s, l) = var_range(v, abs)->Some_0;
                rest.push((s, l, v.name@, g@, v.index))
            },
            None => rest,
        }
    }
}

/// A variable can be written: it has a descriptor or a signature, and a range.
pub open spec fn var_ok(v: LocalVariable, abs: Seq<(u32, u32)>) -> bool {
    (v.descriptor is Some || v.signature is Some) && var_range(v, abs) is Some
}

/// A variable with both a descriptor and a signature gives exactly one
/// entry to each of the two tables.
pub proof fn lemma_local_both_tables(vs: Seq<LocalVariable>, v: LocalVariable, abs: Seq<(u32, u32)>)
    requires
        v.descriptor is Some,
        v.signature is Some,
    ensures
        descriptor_entries(vs.push(v), abs).len() == descriptor_entries(vs, abs).len() + 1,
        signature_entries(vs.push(v), abs).len() == signature_entries(vs, abs).len() + 1,
        descriptor_entries(vs.push(v), abs).last().3 == v.descriptor->Some_0@,
        signature_entries(vs.push(v), abs).last().3 == v.signature->Some_0@,
{
    assert(vs.push(v).drop_last() =~= vs);
}

/// Every local variable among `attrs` can be written: it has a descriptor
/// or a signature, and its labels have positions in order, within two bytes.
pub open spec fn locals_ok(attrs: Seq<CodeAttribute>, abs: Seq<(u32, u32)>) -> bool {
    forall|k: int|
        0 <= k < attrs.len() && (#[trigger] attrs[k]) is LocalVariables ==> forall|j: int|
            0 <= j < attrs[k]->LocalVariables_0@.len() ==> var_ok(#[trigger] attrs[k]->LocalVariables_0@[j], abs)
}

/// A local-variable table entry ready to be written.
struct LocalRow {
    start: u16,
    len: u16,
    name: Vec<u8>,
    text: Vec<u8>,
    index: u16,
}

spec fn rows_model(rs: Seq<LocalRow>) -> Seq<LocalEntry> {
    rs.map_values(|r: LocalRow| (r.start, r.len, r.name@, r.text@, r.index))
}

fn copy_bytes(v: &Vec<u8>) -> (r: Vec<u8>)
    ensures
        r@ == v@,
{
    let mut r: Vec<u8> = Vec::new();
    append_bytes(&mut r, v);
    assert(r@ =~= v@);
    r
}

/// Splits the variables into the rows of the two tables. Fails on a
/// variable with neither a descriptor nor a signature, or without a range.
fn split_locals(vs: &Vec<LocalVariable>, abs: &Vec<(u32, u32)>) -> (r: Result<
    (Vec<LocalRow>, Vec<LocalRow>),
    Error,
>)
    ensures
        r is Ok <==> forall|i: int| 0 <= i < vs@.len() ==> var_ok(#[trigger] vs@[i], abs@),
        r is Ok ==> rows_model(r->Ok_0.0@) == descriptor_entries(vs@, abs@) && rows_model(
            r->Ok_0.1@,
        ) == signature_entries(vs@, abs@),
        r is Err ==> r == Err::<(Vec<LocalRow>, Vec<LocalRow>), Error>(
            Error::Invalid("local variable"),
        ),
{
    let mut descs: Vec<LocalRow> = Vec::new();
    let mut sigs: Vec<LocalRow> = Vec::new();
    let mut i: usize = 0;
    while i < vs.len()
        invariant
            i <= vs@.len(),
            forall|k: int| 0 <= k < i ==> var_ok(#[trigger] vs@[k], abs@),
            rows_model(descs@) == descriptor_entries(vs@.subrange(0, i as int), abs@),
            rows_model(sigs@) == signature_entries(vs@.subrange(0, i as int), abs@),
        decreases vs@.len() - i,
    {
        let v = &vs[i];
        let ghost pre = vs@.subrange(0, i as int);
        proof {
            assert(vs@.subrange(0, i + 1).drop_last() =~= pre);
        }
        if v.descriptor.is_none() && v.signature.is_none() {
            return Err(Error::Invalid("local variable"));
        }
        let (s, e) = match (lookup_pos(abs, v.start), lookup_pos(abs, v.end)) {
            (Some(s), Some(e)) => (s, e),
            _ => return Err(Error::Invalid("local variable")),
        };
        if !(s <= e && e <= 0xFFFF) {
            return Err(Error::Invalid("local variable"));
        }
        let start = s as u16;
        let len = (e - s) as u16;
        match &v.descriptor {
            Some(d) => {
                let row = LocalRow { start, len, name: copy_bytes(&v.name), text: copy_bytes(d), index: v.index };
                let ghost before = descs@;
                descs.push(row);
                assert(rows_model(descs@) =~= rows_model(before).push((start, len, v.name@, d@, v.index)));
            },
            None => {},
        }
        match &v.signature {
            Some(g) => {
                let row = LocalRow { start, len, name: copy_bytes(&v.name), text: copy_bytes(g), index: v.index };
                let ghost before = sigs@;
                sigs.push(row);
                assert(rows_model(sigs@) =~= rows_model(before).push((start, len, v.name@, g@, v.index)));
            },
            None => {},
        }
        i = i + 1;
    }
    assert(vs@.subrange(0, i as int) =~= vs@);
    Ok((descs, sigs))
}

/// The bytes of an attribute: its name's pool index, its length, its body.
pub open spec fn attribute_bytes(name_idx: u16, body: Seq<u8>) -> Seq<u8> {
    u16_bytes(name_idx) + u32_bytes(body.len() as u32) + body
}

/// Appends an attribute, inserting its name into the pool.
fn write_attribute(name: &Vec<u8>, body: &Vec<u8>, cp: &mut VecCp, out: &mut Vec<u8>) -> (r: Result<(), Error>)
    requires
        old(cp).wf(),
    ensures
        final(cp).wf(),
        pool_grows(*old(cp), *final(cp)),
        r is Ok ==> body@.len() <= u32::MAX && exists|idx: u16|
            pool_has_at(*final(cp), EntryModel::UTF8(name@), idx) && final(out)@ == old(out)@
                + attribute_bytes(idx, body@),
        r is Err ==> r->Err_0 is Invalid,
{
    if body.len() > 0xFFFF_FFFF {
        return Err(Error::Invalid("attribute length"));
    }
    let e = RawConstantEntry::UTF8(copy_bytes(name));
    let idx = insert_checked(cp, &e)?;
    let ghost o = out@;
    push_u16(out, idx);
    push_u32(out, body.len() as u32);
    append_bytes(out, body);
    assert(out@ =~= o + attribute_bytes(idx, body@));
    Ok(())
}

/// Inserts a string into the pool.
pub fn insert_utf8(b: &Vec<u8>, cp: &mut VecCp) -> (r: Result<u16, Error>)
    requires
        old(cp).wf(),
    ensures
        old(cp).next_index() <= final(cp).next_index() <= old(cp).next_index() + 1,
        b@.len() <= 0xFFFF && old(cp).next_index() + 1 <= 0xFFFF ==> r is Ok,
        final(cp).wf(),
        pool_grows(*old(cp), *final(cp)),
        r is Ok ==> pool_has_at(*final(cp), EntryModel::UTF8(b@), r->Ok_0),
        r is Err ==> r->Err_0 is Invalid,
{
    let e = RawConstantEntry::UTF8(copy_bytes(b));
    insert_checked(cp, &e)
}

proof fn lemma_grows_trans(a: VecCp, b: VecCp, c: VecCp)
    requires
        pool_grows(a, b),
        pool_grows(b, c),
    ensures
        pool_grows(a, c),
{
}

/// `b` is an attribute named `name` with body `body`, its name at some
/// index of the pool.
pub open spec fn named_attr(b: Seq<u8>, name: Seq<u8>, body: Seq<u8>, cp: VecCp) -> bool {
    exists|idx: u16| pool_has_at(cp, EntryModel::UTF8(name), idx) && b == attribute_bytes(idx, body)
}

/// Ten bytes of a local-variable table for the entry `e`: start, length,
/// the name's and the descriptor's (or signature's) pool indices, slot.
pub open spec fn row_written(r: Seq<u8>, e: LocalEntry, cp: VecCp) -> bool {
    &&& r.len() == 10
    &&& r.subrange(0, 2) == u16_bytes(e.0)
    &&& r.subrange(2, 4) == u16_bytes(e.1)
    &&& exists|ni: u16| pool_has_at(cp, EntryModel::UTF8(e.2), ni) && r.subrange(4, 6) == u16_bytes(ni)
    &&& exists|ti: u16| pool_has_at(cp, EntryModel::UTF8(e.3), ti) && r.subrange(6, 8) == u16_bytes(ti)
    &&& r.subrange(8, 10) == u16_bytes(e.4)
}

/// The body of a local-variable table holding the entries `es`, in order.
pub open spec fn local_body(b: Seq<u8>, es: Seq<LocalEntry>, cp: VecCp) -> bool {
    &&& b.len() == 2 + 10 * es.len()
    &&& b.subrange(0, 2) == u16_bytes(es.len() as u16)
    &&& forall|i: int| 0 <= i < es.len() ==> #[trigger] row_written(b.subrange(2 + 10 * i, 12 + 10 * i), es[i], cp)
}

proof fn lemma_row_written_grows(r: Seq<u8>, e: LocalEntry, a: VecCp, b: VecCp)
    requires
        pool_grows(a, b),
        row_written(r, e, a),
    ensures
        row_written(r, e, b),
{
    let ni = choose|ni: u16| pool_has_at(a, EntryModel::UTF8(e.2), ni) && r.subrange(4, 6) == u16_bytes(ni);
    let ti = choose|ti: u16| pool_has_at(a, EntryModel::UTF8(e.3), ti) && r.subrange(6, 8) == u16_bytes(ti);
    lemma_has_at_grows(a, b, EntryModel::UTF8(e.2), ni);
    lemma_has_at_grows(a, b, EntryModel::UTF8(e.3), ti);
}

proof fn lemma_local_body_grows(body: Seq<u8>, es: Seq<LocalEntry>, a: VecCp, b: VecCp)
    requires
        pool_grows(a, b),
        local_body(body, es, a),
    ensures
        local_body(body, es, b),
{
    assert forall|i: int| 0 <= i < es.len() implies #[trigger] row_written(body.subrange(2 + 10 * i, 12 + 10 * i), es[i], b) by {
        lemma_row_written_grows(body.subrange(2 + 10 * i, 12 + 10 * i), es[i], a, b);
    }
}

proof fn lemma_named_attr_grows(x: Seq<u8>, name: Seq<u8>, body: Seq<u8>, a: VecCp, b: VecCp)
    requires
        pool_grows(a, b),
        named_attr(x, name, body, a),
    ensures
        named_attr(x, name, body, b),
{
    let idx = choose|idx: u16| pool_has_at(a, EntryModel::UTF8(name), idx) && x == attribute_bytes(idx, body);
    lemma_has_at_grows(a, b, EntryModel::UTF8(name), idx);
}

/// The body of a local-variable table.
#[verifier::rlimit(40)]
fn local_table(rows: &Vec<LocalRow>, cp: &mut VecCp) -> (r: Result<Vec<u8>, Error>)
    requires
        old(cp).wf(),
    ensures
        final(cp).wf(),
        pool_grows(*old(cp), *final(cp)),
        r is Ok ==> local_body(r->Ok_0@, rows_model(rows@), *final(cp)),
        r is Err ==> r->Err_0 is Invalid,
{
    if rows.len() > 0xFFFF {
        return Err(Error::Invalid("local variable table"));
    }
    let mut out: Vec<u8> = Vec::new();
    push_u16(&mut out, rows.len() as u16);
    let ghost es = rows_model(rows@);
    let mut i: usize = 0;
    while i < rows.len()
        invariant
            cp.wf(),
            pool_grows(*old(cp), *cp),
            i <= rows@.len(),
            rows@.len() <= 0xFFFF,
            es == rows_model(rows@),
            out@.len() == 2 + 10 * i,
            out@.subrange(0, 2) == u16_bytes(rows@.len() as u16),
            forall|k: int| 0 <= k < i ==> #[trigger] row_written(out@.subrange(2 + 10 * k, 12 + 10 * k), es[k], *cp),
        decreases rows@.len() - i,
    {
        let row = &rows[i];
        let ghost c0 = *cp;
        let ghost o0 = out@;
        let name = insert_utf8(&row.name, cp)?;
        let ghost c1 = *cp;
        let text = insert_utf8(&row.text, cp)?;
        proof {
            lemma_grows_trans(*old(cp), c0, c1);
            lemma_grows_trans(*old(cp), c1, *cp);
            lemma_has_at_grows(c1, *cp, EntryModel::UTF8(row.name@), name);
        }
        push_u16(&mut out, row.start);
        push_u16(&mut out, row.len);
        push_u16(&mut out, name);
        push_u16(&mut out, text);
        push_u16(&mut out, row.index);
        proof {
            lemma_grows_trans(c0, c1, *cp);
            let r = out@.subrange(2 + 10 * i, 12 + 10 * i);
            assert(r.subrange(0, 2) =~= u16_bytes(row.start));
            assert(r.subrange(2, 4) =~= u16_bytes(row.len));
            assert(r.subrange(4, 6) =~= u16_bytes(name));
            assert(r.subrange(6, 8) =~= u16_bytes(text));
            assert(r.subrange(8, 10) =~= u16_bytes(row.index));
            assert(es[i as int] == (row.start, row.len, row.name@, row.text@, row.index));
            assert(row_written(r, es[i as int], *cp));
            assert(out@.subrange(0, 2) =~= o0.subrange(0, 2));
            assert forall|k: int| 0 <= k < i + 1 implies #[trigger] row_written(out@.subrange(2 + 10 * k, 12 + 10 * k), es[k], *cp) by {
                if k < i {
                    assert(out@.subrange(2 + 10 * k, 12 + 10 * k) =~= o0.subrange(2 + 10 * k, 12 + 10 * k));
                    lemma_row_written_grows(o0.subrange(2 + 10 * k, 12 + 10 * k), es[k], c0, *cp);
                }
            }
        }
        i = i + 1;
    }
    Ok(out)
}

/// The bytes of a LineNumberTable body for the (offset, line) pairs `lines`.
pub open spec fn lines_body(b: Seq<u8>, lines: Seq<(u32, u16)>) -> bool {
    &&& b.len() == 2 + 4 * lines.len()
    &&& b.subrange(0, 2) == u16_bytes(lines.len() as u16)
    &&& forall|i: int|
        0 <= i < lines.len() ==> (#[trigger] lines[i]).0 <= 0xFFFF && b.subrange(2 + 4 * i, 4 + 4 * i) == u16_bytes(lines[i].0 as u16)
            && b.subrange(4 + 4 * i, 6 + 4 * i) == u16_bytes(lines[i].1)
}

/// The attributes one attribute of a `Code` becomes: type annotations and
/// raw attributes verbatim under their names, local variables as a
/// LocalVariableTable of the variables with a descriptor followed by a
/// LocalVariableTypeTable of those with a signature, each only if not empty.
pub open spec fn one_attr(b: Seq<u8>, a: CodeAttribute, abs: Seq<(u32, u32)>, cp: VecCp) -> bool {
    match a {
        CodeAttribute::VisibleTypeAnnotations(x) => named_attr(b, "RuntimeVisibleTypeAnnotations".spec_bytes(), x@, cp),
        CodeAttribute::InvisibleTypeAnnotations(x) => named_attr(b, "RuntimeInvisibleTypeAnnotations".spec_bytes(), x@, cp),
        CodeAttribute::Raw { name, data } => named_attr(b, name@, data@, cp),
        CodeAttribute::LocalVariables(vs) => locals_written(
            b,
            descriptor_entries(vs@, abs),
            signature_entries(vs@, abs),
            cp,
        ),
    }
}

/// `b` is a LocalVariableTable of `d` unless `d` is empty, then a
/// LocalVariableTypeTable of `g` unless `g` is empty.
pub open spec fn locals_written(b: Seq<u8>, d: Seq<LocalEntry>, g: Seq<LocalEntry>, cp: VecCp) -> bool {
    exists|k: int, db: Seq<u8>, gb: Seq<u8>| #[trigger] locals_split(b, d, g, cp, k, db, gb)
}

pub open spec fn locals_split(b: Seq<u8>, d: Seq<LocalEntry>, g: Seq<LocalEntry>, cp: VecCp, k: int, db: Seq<u8>, gb: Seq<u8>) -> bool {
    &&& 0 <= k <= b.len()
    &&& if d.len() > 0 {
        named_attr(b.subrange(0, k), "LocalVariableTable".spec_bytes(), db, cp) && local_body(db, d, cp)
    } else {
        k == 0
    }
    &&& if g.len() > 0 {
        named_attr(b.subrange(k, b.len() as int), "LocalVariableTypeTable".spec_bytes(), gb, cp) && local_body(gb, g, cp)
    } else {
        k == b.len()
    }
}

/// How many attributes one attribute of a `Code` becomes.
pub open spec fn attr_count1(a: CodeAttribute, abs: Seq<(u32, u32)>) -> int {
    match a {
        CodeAttribute::LocalVariables(vs) => (if descriptor_entries(vs@, abs).len() > 0 { 1int } else { 0 }) + (if signature_entries(vs@, abs).len() > 0 { 1int } else { 0 }),
        _ => 1,
    }
}

pub open spec fn attr_count(attrs: Seq<CodeAttribute>, abs: Seq<(u32, u32)>) -> int
    decreases attrs.len(),
{
    if attrs.len() == 0 {
        0
    } else {
        attr_count(attrs.drop_last(), abs) + attr_count1(attrs.last(), abs)
    }
}

/// `b` holds the attributes `attrs` become, one after another.
pub open spec fn attrs_bytes(b: Seq<u8>, attrs: Seq<CodeAttribute>, abs: Seq<(u32, u32)>, cp: VecCp) -> bool
    decreases attrs.len(),
{
    if attrs.len() == 0 {
        b.len() == 0
    } else {
        exists|k: int|
            0 <= k <= b.len() && attrs_bytes(b.subrange(0, k), attrs.drop_last(), abs, cp) && #[trigger] one_attr(
                b.subrange(k, b.len() as int),
                attrs.last(),
                abs,
                cp,
            )
    }
}

proof fn lemma_one_attr_grows(b: Seq<u8>, a: CodeAttribute, abs: Seq<(u32, u32)>, x: VecCp, y: VecCp)
    requires
        pool_grows(x, y),
        one_attr(b, a, abs, x),
    ensures
        one_attr(b, a, abs, y),
{
    match a {
        CodeAttribute::VisibleTypeAnnotations(v) => lemma_named_attr_grows(b, "RuntimeVisibleTypeAnnotations".spec_bytes(), v@, x, y),
        CodeAttribute::InvisibleTypeAnnotations(v) => lemma_named_attr_grows(b, "RuntimeInvisibleTypeAnnotations".spec_bytes(), v@, x, y),
        CodeAttribute::Raw { name, data } => lemma_named_attr_grows(b, name@, data@, x, y),
        CodeAttribute::LocalVariables(vs) => {
            let d = descriptor_entries(vs@, abs);
            let g = signature_entries(vs@, abs);
            let (k, db, gb) = choose|k: int, db: Seq<u8>, gb: Seq<u8>| #[trigger] locals_split(b, d, g, x, k, db, gb);
            if d.len() > 0 {
                lemma_named_attr_grows(b.subrange(0, k), "LocalVariableTable".spec_bytes(), db, x, y);
                lemma_local_body_grows(db, d, x, y);
            }
            if g.len() > 0 {
                lemma_named_attr_grows(b.subrange(k, b.len() as int), "LocalVariableTypeTable".spec_bytes(), gb, x, y);
                lemma_local_body_grows(gb, g, x, y);
            }
            assert(locals_split(b, d, g, y, k, db, gb));
        },
    }
}

proof fn lemma_attrs_bytes_grows(b: Seq<u8>, attrs: Seq<CodeAttribute>, abs: Seq<(u32, u32)>, x: VecCp, y: VecCp)
    requires
        pool_grows(x, y),
        attrs_bytes(b, attrs, abs, x),
    ensures
        attrs_bytes(b, attrs, abs, y),
    decreases attrs.len(),
{
    if attrs.len() > 0 {
        let k = choose|k: int|
            0 <= k <= b.len() && attrs_bytes(b.subrange(0, k), attrs.drop_last(), abs, x) && #[trigger] one_attr(
                b.subrange(k, b.len() as int),
                attrs.last(),
                abs,
                x,
            );
        lemma_attrs_bytes_grows(b.subrange(0, k), attrs.drop_last(), abs, x, y);
        lemma_one_attr_grows(b.subrange(k, b.len() as int), attrs.last(), abs, x, y);
    }
}

/// The attribute section after the exception table: the count, then a
/// LineNumberTable when there are line numbers, then what the attributes
/// become, in order.
pub open spec fn attr_section(b: Seq<u8>, lines: Seq<(u32, u16)>, attrs: Seq<CodeAttribute>, abs: Seq<(u32, u32)>, cp: VecCp) -> bool {
    let n = (if lines.len() > 0 { 1int } else { 0 }) + attr_count(attrs, abs);
    &&& b.len() >= 2
    &&& n <= 0xFFFF
    &&& b.subrange(0, 2) == u16_bytes(n as u16)
    &&& exists|k: int, body: Seq<u8>|
        #[trigger] lines_section(b, k, lines, cp, body) && attrs_bytes(b.subrange(k, b.len() as int), attrs, abs, cp)
}

/// Bytes `2..k` of `b` are the LineNumberTable of `lines`, or nothing when
/// there are none.
pub open spec fn lines_section(b: Seq<u8>, k: int, lines: Seq<(u32, u16)>, cp: VecCp, body: Seq<u8>) -> bool {
    &&& 2 <= k <= b.len()
    &&& if lines.len() > 0 {
        lines_body(body, lines) && named_attr(b.subrange(2, k), "LineNumberTable".spec_bytes(), body, cp)
    } else {
        k == 2
    }
}

fn bytes_of(s: &str) -> (r: Vec<u8>)
    ensures
        r@ == s.spec_bytes(),
{
    vstd::slice::slice_to_vec(s.as_bytes())
}

/// The position of a label as a two-byte table entry.
fn pc_of(abs: &Vec<(u32, u32)>, l: Label) -> (r: Result<u16, Error>)
    ensures
        r is Ok <==> find_pos(abs@, l.0) is Some && find_pos(abs@, l.0)->Some_0 <= 0xFFFF,
        r is Ok ==> r->Ok_0 == find_pos(abs@, l.0)->Some_0,
        r is Err ==> r->Err_0 is Invalid,
{
    match lookup_pos(abs, l) {
        Some(p) => if p <= 0xFFFF {
            Ok(p as u16)
        } else {
            Err(Error::Invalid("label offset"))
        },
        None => Err(Error::Invalid("referenced label")),
    }
}

/// Eight bytes of the exception table for `c`: the positions of its start,
/// end and handler, then the pool index of its class, or zero.
pub open spec fn catch_row(row: Seq<u8>, c: Catch, abs: Seq<(u32, u32)>, cp: VecCp) -> bool {
    &&& row.len() == 8
    &&& find_pos(abs, c.start.0) is Some && row.subrange(0, 2) == u16_bytes(
        find_pos(abs, c.start.0)->Some_0 as u16,
    )
    &&& find_pos(abs, c.end.0) is Some && row.subrange(2, 4) == u16_bytes(
        find_pos(abs, c.end.0)->Some_0 as u16,
    )
    &&& find_pos(abs, c.handler.0) is Some && row.subrange(4, 6) == u16_bytes(
        find_pos(abs, c.handler.0)->Some_0 as u16,
    )
    &&& match c.catch {
        None => row.subrange(6, 8) == u16_bytes(0),
        Some(name) => exists|idx: u16, nidx: u16|
            pool_has_at(cp, EntryModel::UTF8(name@), nidx) && pool_has_at(cp, EntryModel::Class(nidx), idx)
                && row.subrange(6, 8) == u16_bytes(idx),
    }
}

/// The exception table of `catches` stands in `t`: its count, then a row per catch.
pub open spec fn catch_table(t: Seq<u8>, catches: Seq<Catch>, abs: Seq<(u32, u32)>, cp: VecCp) -> bool {
    &&& t.len() == 2 + 8 * catches.len()
    &&& t.subrange(0, 2) == u16_bytes(catches.len() as u16)
    &&& forall|i: int|
        0 <= i < catches.len() ==> catch_row(
            #[trigger] t.subrange(2 + 8 * i, 10 + 8 * i),
            catches[i],
            abs,
            cp,
        )
}

proof fn lemma_constants_grow(code: Seq<Instruction>, idxs: Seq<u16>, a: VecCp, b: VecCp)
    requires
        pool_grows(a, b),
        constants_at(code, idxs, a),
    ensures
        constants_at(code, idxs, b),
{
    assert forall|i: int| 0 <= i < code.len() && (#[trigger] code[i]).entry() is Some implies pool_has_at(
        b,
        code[i].entry()->Some_0,
        idxs[i],
    ) by {
        lemma_has_at_grows(a, b, code[i].entry()->Some_0, idxs[i]);
    }
}

proof fn lemma_row_grows(row: Seq<u8>, c: Catch, abs: Seq<(u32, u32)>, a: VecCp, b: VecCp)
    requires
        pool_grows(a, b),
        catch_row(row, c, abs, a),
    ensures
        catch_row(row, c, abs, b),
{
    if let Some(name) = c.catch {
        let (idx, nidx) = choose|idx: u16, nidx: u16|
            pool_has_at(a, EntryModel::UTF8(name@), nidx) && pool_has_at(a, EntryModel::Class(nidx), idx)
                && row.subrange(6, 8) == u16_bytes(idx);
        lemma_has_at_grows(a, b, EntryModel::UTF8(name@), nidx);
        lemma_has_at_grows(a, b, EntryModel::Class(nidx), idx);
    }
}

/// Appends the LineNumberTable of the (offset, line) pairs.
fn write_lines(lines: &Vec<(u32, u16)>, cp: &mut VecCp, out: &mut Vec<u8>) -> (r: Result<(), Error>)
    requires
        old(cp).wf(),
    ensures
        final(cp).wf(),
        pool_grows(*old(cp), *final(cp)),
        r is Ok ==> final(out)@.len() >= old(out)@.len() && final(out)@.subrange(0, old(out)@.len() as int) == old(out)@
            && exists|body: Seq<u8>| lines_body(body, lines@) && named_attr(
                final(out)@.subrange(old(out)@.len() as int, final(out)@.len() as int),
                "LineNumberTable".spec_bytes(),
                body,
                *final(cp),
            ),
        r is Err ==> r->Err_0 is Invalid,
{
    if lines.len() > 0xFFFF {
        return Err(Error::Invalid("line number table"));
    }
    let mut body: Vec<u8> = Vec::new();
    push_u16(&mut body, lines.len() as u16);
    let mut k: usize = 0;
    while k < lines.len()
        invariant
            *cp == *old(cp),
            cp.wf(),
            pool_grows(*old(cp), *cp),
            k <= lines@.len(),
            lines@.len() <= 0xFFFF,
            body@.len() == 2 + 4 * k,
            body@.subrange(0, 2) == u16_bytes(lines@.len() as u16),
            forall|i: int|
                0 <= i < k ==> (#[trigger] lines@[i]).0 <= 0xFFFF && body@.subrange(2 + 4 * i, 4 + 4 * i) == u16_bytes(lines@[i].0 as u16)
                    && body@.subrange(4 + 4 * i, 6 + 4 * i) == u16_bytes(lines@[i].1),
        decreases lines@.len() - k,
    {
        let (pc, line) = lines[k];
        if pc > 0xFFFF {
            return Err(Error::Invalid("line number offset"));
        }
        let ghost b0 = body@;
        push_u16(&mut body, pc as u16);
        push_u16(&mut body, line);
        proof {
            assert(body@.subrange(0, 2) =~= b0.subrange(0, 2));
            assert forall|i: int| 0 <= i < k + 1 implies (#[trigger] lines@[i]).0 <= 0xFFFF && body@.subrange(2 + 4 * i, 4 + 4 * i) == u16_bytes(lines@[i].0 as u16)
                && body@.subrange(4 + 4 * i, 6 + 4 * i) == u16_bytes(lines@[i].1) by {
                if i < k {
                    assert(body@.subrange(2 + 4 * i, 4 + 4 * i) =~= b0.subrange(2 + 4 * i, 4 + 4 * i));
                    assert(body@.subrange(4 + 4 * i, 6 + 4 * i) =~= b0.subrange(4 + 4 * i, 6 + 4 * i));
                } else {
                    assert(body@.subrange(2 + 4 * i, 4 + 4 * i) =~= u16_bytes(pc as u16));
                    assert(body@.subrange(4 + 4 * i, 6 + 4 * i) =~= u16_bytes(line));
                }
            }
        }
        k = k + 1;
    }
    let ghost o = out@;
    write_attribute(&bytes_of("LineNumberTable"), &body, cp, out)?;
    proof {
        assert(out@.subrange(0, o.len() as int) =~= o);
        let idx = choose|idx: u16| pool_has_at(*cp, EntryModel::UTF8("LineNumberTable".spec_bytes()), idx) && out@ == o
            + attribute_bytes(idx, body@);
        assert(out@.subrange(o.len() as int, out@.len() as int) =~= attribute_bytes(idx, body@));
        assert(lines_body(body@, lines@));
    }
    Ok(())
}

/// Appends the local-variable tables of `vs`, returning how many.
fn write_locals(vs: &Vec<LocalVariable>, abs: &Vec<(u32, u32)>, cp: &mut VecCp, out: &mut Vec<u8>) -> (r: Result<u32, Error>)
    requires
        old(cp).wf(),
    ensures
        final(cp).wf(),
        pool_grows(*old(cp), *final(cp)),
        r is Ok ==> final(out)@.len() >= old(out)@.len() && final(out)@.subrange(0, old(out)@.len() as int) == old(out)@
            && locals_written(
            final(out)@.subrange(old(out)@.len() as int, final(out)@.len() as int),
            descriptor_entries(vs@, abs@),
            signature_entries(vs@, abs@),
            *final(cp),
        ) && r->Ok_0 == attr_count1(CodeAttribute::LocalVariables(*vs), abs@),
        r is Ok ==> forall|j: int| 0 <= j < vs@.len() ==> var_ok(#[trigger] vs@[j], abs@),
        r is Err ==> r->Err_0 is Invalid,
{
    let ghost o = out@;
    let (descs, sigs) = split_locals(vs, abs)?;
    let mut n: u32 = 0;
    let ghost c0 = *cp;
    let ghost mut db: Seq<u8> = Seq::empty();
    if descs.len() > 0 {
        let body = local_table(&descs, cp)?;
        let ghost c1 = *cp;
        write_attribute(&bytes_of("LocalVariableTable"), &body, cp, out)?;
        proof {
            lemma_grows_trans(c0, c1, *cp);
            lemma_local_body_grows(body@, rows_model(descs@), c1, *cp);
            lemma_appended_attr(o, out@, "LocalVariableTable".spec_bytes(), body@, *cp);
            db = body@;
        }
        n = n + 1;
    }
    let ghost mid = out@;
    let ghost c2 = *cp;
    let ghost mut gb: Seq<u8> = Seq::empty();
    if sigs.len() > 0 {
        let body = local_table(&sigs, cp)?;
        let ghost c1 = *cp;
        write_attribute(&bytes_of("LocalVariableTypeTable"), &body, cp, out)?;
        proof {
            lemma_grows_trans(c2, c1, *cp);
            lemma_local_body_grows(body@, rows_model(sigs@), c1, *cp);
            lemma_appended_attr(mid, out@, "LocalVariableTypeTable".spec_bytes(), body@, *cp);
            gb = body@;
        }
        n = n + 1;
    }
    proof {
        lemma_grows_trans(c0, c2, *cp);
        let b = out@.subrange(o.len() as int, out@.len() as int);
        let k = mid.len() - o.len();
        let d = descriptor_entries(vs@, abs@);
        let g = signature_entries(vs@, abs@);
        assert(rows_model(descs@).len() == descs@.len());
        assert(rows_model(sigs@).len() == sigs@.len());
        assert(out@.subrange(0, mid.len() as int) =~= mid);
        assert(mid.subrange(0, o.len() as int) =~= o);
        if d.len() > 0 {
            assert(b.subrange(0, k) =~= mid.subrange(o.len() as int, mid.len() as int));
            lemma_named_attr_grows(b.subrange(0, k), "LocalVariableTable".spec_bytes(), db, c2, *cp);
            lemma_local_body_grows(db, d, c2, *cp);
        } else {
            assert(mid == o);
        }
        if g.len() > 0 {
            assert(b.subrange(k, b.len() as int) =~= out@.subrange(mid.len() as int, out@.len() as int));
        } else {
            assert(out@ == mid);
        }
        assert(locals_split(b, d, g, *cp, k, db, gb));
        assert(out@.subrange(0, o.len() as int) =~= o);
    }
    Ok(n)
}

proof fn lemma_appended_attr(o: Seq<u8>, out: Seq<u8>, name: Seq<u8>, body: Seq<u8>, cp: VecCp)
    requires
        exists|idx: u16| pool_has_at(cp, EntryModel::UTF8(name), idx) && out == o + attribute_bytes(idx, body),
    ensures
        out.len() >= o.len(),
        out.subrange(0, o.len() as int) == o,
        named_attr(out.subrange(o.len() as int, out.len() as int), name, body, cp),
{
    let idx = choose|idx: u16| pool_has_at(cp, EntryModel::UTF8(name), idx) && out == o + attribute_bytes(idx, body);
    assert(out.subrange(0, o.len() as int) =~= o);
    assert(out.subrange(o.len() as int, out.len() as int) =~= attribute_bytes(idx, body));
}

/// Appends the attributes one attribute of a `Code` becomes, returning how many.
fn write_one_attr(at: &CodeAttribute, abs: &Vec<(u32, u32)>, cp: &mut VecCp, out: &mut Vec<u8>) -> (r: Result<u32, Error>)
    requires
        old(cp).wf(),
    ensures
        final(cp).wf(),
        pool_grows(*old(cp), *final(cp)),
        r is Ok ==> final(out)@.len() >= old(out)@.len() && final(out)@.subrange(0, old(out)@.len() as int) == old(out)@
            && one_attr(final(out)@.subrange(old(out)@.len() as int, final(out)@.len() as int), *at, abs@, *final(cp))
            && r->Ok_0 == attr_count1(*at, abs@),
        r is Ok && *at is LocalVariables ==> forall|j: int|
            0 <= j < at->LocalVariables_0@.len() ==> var_ok(#[trigger] at->LocalVariables_0@[j], abs@),
        r is Err ==> r->Err_0 is Invalid,
{
    let ghost o = out@;
    match at {
        CodeAttribute::LocalVariables(vs) => write_locals(vs, abs, cp, out),
        CodeAttribute::VisibleTypeAnnotations(b) => {
            write_attribute(&bytes_of("RuntimeVisibleTypeAnnotations"), b, cp, out)?;
            proof {
                lemma_appended_attr(o, out@, "RuntimeVisibleTypeAnnotations".spec_bytes(), b@, *cp);
            }
            Ok(1)
        },
        CodeAttribute::InvisibleTypeAnnotations(b) => {
            write_attribute(&bytes_of("RuntimeInvisibleTypeAnnotations"), b, cp, out)?;
            proof {
                lemma_appended_attr(o, out@, "RuntimeInvisibleTypeAnnotations".spec_bytes(), b@, *cp);
            }
            Ok(1)
        },
        CodeAttribute::Raw { name, data } => {
            write_attribute(name, data, cp, out)?;
            proof {
                lemma_appended_attr(o, out@, name@, data@, *cp);
            }
            Ok(1)
        },
    }
}

impl Code {
    /// The exception table, with label positions from `abs`.
    fn write_catches(&self, abs: &Vec<(u32, u32)>, cp: &mut VecCp) -> (r: Result<Vec<u8>, Error>)
        requires
            old(cp).wf(),
        ensures
            final(cp).wf(),
            pool_grows(*old(cp), *final(cp)),
            r is Ok ==> catch_table(r->Ok_0@, self.catches@, abs@, *final(cp)),
            r is Err ==> r->Err_0 is Invalid,
    {
        if self.catches.len() > 0xFFFF {
            return Err(Error::Invalid("exception table"));
        }
        let mut t: Vec<u8> = Vec::new();
        push_u16(&mut t, self.catches.len() as u16);
        let mut i: usize = 0;
        while i < self.catches.len()
            invariant
                cp.wf(),
                pool_grows(*old(cp), *cp),
                i <= self.catches@.len(),
                self.catches@.len() <= 0xFFFF,
                t@.len() == 2 + 8 * i,
                t@.subrange(0, 2) == u16_bytes(self.catches@.len() as u16),
                forall|k: int|
                    0 <= k < i ==> catch_row(
                        #[trigger] t@.subrange(2 + 8 * k, 10 + 8 * k),
                        self.catches@[k],
                        abs@,
                        *cp,
                    ),
            decreases self.catches@.len() - i,
        {
            let c = &self.catches[i];
            let ghost t0 = t@;
            let ghost c0 = *cp;
            let s = pc_of(abs, c.start)?;
            let e = pc_of(abs, c.end)?;
            let h = pc_of(abs, c.handler)?;
            let ty = match &c.catch {
                Some(name) => {
                    let n = insert_utf8(name, cp)?;
                    let ghost c1 = *cp;
                    let t = insert_checked(cp, &RawConstantEntry::Class(n))?;
                    proof {
                        lemma_grows_trans(*old(cp), c0, c1);
                        lemma_grows_trans(*old(cp), c1, *cp);
                        lemma_has_at_grows(c1, *cp, EntryModel::UTF8(name@), n);
                    }
                    t
                },
                None => 0,
            };
            push_u16(&mut t, s);
            push_u16(&mut t, e);
            push_u16(&mut t, h);
            push_u16(&mut t, ty);
            proof {
                let row = t@.subrange(2 + 8 * i, 10 + 8 * i);
                assert(row.subrange(0, 2) =~= u16_bytes(s));
                assert(row.subrange(2, 4) =~= u16_bytes(e));
                assert(row.subrange(4, 6) =~= u16_bytes(h));
                assert(row.subrange(6, 8) =~= u16_bytes(ty));
                assert(catch_row(row, *c, abs@, *cp));
                assert(t@.subrange(0, 2) =~= t0.subrange(0, 2));
                assert forall|k: int| 0 <= k < i + 1 implies catch_row(
                    #[trigger] t@.subrange(2 + 8 * k, 10 + 8 * k),
                    self.catches@[k],
                    abs@,
                    *cp,
                ) by {
                    if k < i {
                        assert(t@.subrange(2 + 8 * k, 10 + 8 * k) =~= t0.subrange(2 + 8 * k, 10 + 8 * k));
                        lemma_row_grows(t0.subrange(2 + 8 * k, 10 + 8 * k), self.catches@[k], abs@, c0, *cp);
                    }
                }
            }
            i = i + 1;
        }
        Ok(t)
    }
}

impl Code {
    /// Writes the Code attribute's body: `max_stack`, `max_locals`, the code
    /// array with its length, the exception table, then the attributes, with
    /// a LineNumberTable for the line-number markers and the local variables
    /// split into a LocalVariableTable and a LocalVariableTypeTable.
    pub fn write_to(&self, cp: &mut VecCp, out: &mut Vec<u8>) -> (r: Result<(), Error>)
        requires
            old(cp).wf(),
        ensures
            final(cp).wf(),
            pool_grows(*old(cp), *final(cp)),
            r is Ok ==> exists|a: Assembled|
                {
                    let h = old(out)@.len() + 8 + a.bytes@.len();
                    &&& #[trigger] a.laid_out(self.code@)
                    &&& constants_at(self.code@, a.idxs@, *final(cp))
                    &&& locals_ok(self.attrs@, a.labels@)
                    &&& attr_section(
                        final(out)@.subrange((h + 2 + 8 * self.catches@.len()) as int, final(out)@.len() as int),
                        a.lines@,
                        self.attrs@,
                        a.labels@,
                        *final(cp),
                    )
                    &&& final(out)@.len() >= h + 2 + 8 * self.catches@.len()
                    &&& final(out)@.subrange(0, h as int) == old(out)@ + u16_bytes(self.max_stack)
                        + u16_bytes(self.max_locals) + u32_bytes(a.bytes@.len() as u32) + a.bytes@
                    &&& catch_table(
                        final(out)@.subrange(h as int, (h + 2 + 8 * self.catches@.len()) as int),
                        self.catches@,
                        a.labels@,
                        *final(cp),
                    )
                },
            r is Err ==> r->Err_0 is Invalid,
    {
        let a = assemble(&self.code, cp)?;
        let ghost o = out@;
        push_u16(out, self.max_stack);
        push_u16(out, self.max_locals);
        push_u32(out, a.bytes.len() as u32);
        append_bytes(out, &a.bytes);
        let ghost head = out@;
        assert(head =~= o + u16_bytes(self.max_stack) + u16_bytes(self.max_locals) + u32_bytes(
            a.bytes@.len() as u32,
        ) + a.bytes@);
        let ghost c_after_code = *cp;
        self.write_tables(&a, cp, out)?;
        proof {
            lemma_constants_grow(self.code@, a.idxs@, c_after_code, *cp);
            lemma_grows_trans(*old(cp), c_after_code, *cp);
            assert(out@.subrange(0, head.len() as int) == head);
            assert(head.len() == o.len() + 8 + a.bytes@.len());
        }
        Ok(())
    }

    /// Writes the exception table and the attributes.
    fn write_tables(&self, a: &Assembled, cp: &mut VecCp, out: &mut Vec<u8>) -> (r: Result<(), Error>)
        requires
            old(cp).wf(),
        ensures
            final(cp).wf(),
            pool_grows(*old(cp), *final(cp)),
            r is Ok ==> final(out)@.len() >= old(out)@.len() + 2 + 8 * self.catches@.len()
                && final(out)@.subrange(0, old(out)@.len() as int) == old(out)@ && catch_table(
                final(out)@.subrange(
                    old(out)@.len() as int,
                    (old(out)@.len() + 2 + 8 * self.catches@.len()) as int,
                ),
                self.catches@,
                a.labels@,
                *final(cp),
            ),
            r is Ok ==> locals_ok(self.attrs@, a.labels@),
            r is Ok ==> attr_section(
                final(out)@.subrange((old(out)@.len() + 2 + 8 * self.catches@.len()) as int, final(out)@.len() as int),
                a.lines@,
                self.attrs@,
                a.labels@,
                *final(cp),
            ),
            r is Err ==> r->Err_0 is Invalid,
    {
        let ghost o = out@;
        let mut attrs: Vec<u8> = Vec::new();
        let mut count: u32 = 0;
        let ghost abs = a.labels@;
        if a.lines.len() > 0 {
            write_lines(&a.lines, cp, &mut attrs)?;
            count = 1;
            assert(attrs@.subrange(0, attrs@.len() as int) =~= attrs@);
        }
        let ghost lnt = attrs@;
        let ghost c_l = *cp;
        assert(a.lines@.len() == 0 ==> lnt.len() == 0);
        let mut i: usize = 0;
        proof {
            assert(attrs@.subrange(lnt.len() as int, attrs@.len() as int) =~= Seq::<u8>::empty());
            assert(self.attrs@.subrange(0, 0) =~= Seq::<CodeAttribute>::empty());
        }
        while i < self.attrs.len()
            invariant
                cp.wf(),
                pool_grows(*old(cp), c_l),
                pool_grows(c_l, *cp),
                pool_grows(*old(cp), *cp),
                i <= self.attrs@.len(),
                count <= 0xFFFF,
                locals_ok(self.attrs@.subrange(0, i as int), abs),
                abs == a.labels@,
                a.lines@.len() > 0 ==> exists|body: Seq<u8>| lines_body(body, a.lines@) && named_attr(lnt, "LineNumberTable".spec_bytes(), body, c_l),
                a.lines@.len() == 0 ==> lnt.len() == 0,
                attrs@.len() >= lnt.len(),
                attrs@.subrange(0, lnt.len() as int) == lnt,
                count == (if a.lines@.len() > 0 { 1int } else { 0 }) + attr_count(self.attrs@.subrange(0, i as int), abs),
                attrs_bytes(attrs@.subrange(lnt.len() as int, attrs@.len() as int), self.attrs@.subrange(0, i as int), abs, *cp),
            decreases self.attrs@.len() - i,
        {
            let ghost c0 = *cp;
            let ghost before = attrs@;
            let n = write_one_attr(&self.attrs[i], &a.labels, cp, &mut attrs)?;
            if n > 2 {
                return Err(Error::Invalid("attribute count"));
            }
            count = count + n;
            if count > 0xFFFF {
                return Err(Error::Invalid("attribute count"));
            }
            proof {
                lemma_grows_trans(c_l, c0, *cp);
                lemma_grows_trans(*old(cp), c0, *cp);
                let t = self.attrs@.subrange(0, i + 1);
                assert(t.drop_last() =~= self.attrs@.subrange(0, i as int));
                assert(t.last() == self.attrs@[i as int]);
                assert(attrs@.subrange(0, lnt.len() as int) =~= before.subrange(0, lnt.len() as int));
                let whole = attrs@.subrange(lnt.len() as int, attrs@.len() as int);
                let k = before.len() - lnt.len();
                assert(whole.subrange(0, k) =~= before.subrange(lnt.len() as int, before.len() as int));
                assert(whole.subrange(k, whole.len() as int) =~= attrs@.subrange(before.len() as int, attrs@.len() as int));
                lemma_attrs_bytes_grows(whole.subrange(0, k), self.attrs@.subrange(0, i as int), abs, c0, *cp);
                assert(one_attr(whole.subrange(k, whole.len() as int), t.last(), abs, *cp));
                assert(attrs_bytes(whole, t, abs, *cp));
                assert forall|q: int| 0 <= q < t.len() && (#[trigger] t[q]) is LocalVariables implies forall|j: int|
                    0 <= j < t[q]->LocalVariables_0@.len() ==> var_ok(#[trigger] t[q]->LocalVariables_0@[j], abs) by {
                    if q < i {
                        assert(t[q] == self.attrs@.subrange(0, i as int)[q]);
                    }
                }
            }
            i = i + 1;
        }
        assert(self.attrs@.subrange(0, i as int) =~= self.attrs@);
        if count > 0xFFFF {
            return Err(Error::Invalid("attribute count"));
        }
        let ghost c_attrs = *cp;
        let tail = self.write_catches(&a.labels, cp)?;
        proof {
            lemma_grows_trans(*old(cp), c_attrs, *cp);
            lemma_grows_trans(c_l, c_attrs, *cp);
        }
        append_bytes(out, &tail);
        let ghost sec_start = out@.len();
        push_u16(out, count as u16);
        append_bytes(out, &attrs);
        proof {
            assert(out@.subrange(0, o.len() as int) =~= o);
            assert(out@.subrange(o.len() as int, (o.len() + 2 + 8 * self.catches@.len()) as int) =~= tail@);
            let sec = out@.subrange(sec_start as int, out@.len() as int);
            assert(sec.subrange(0, 2) =~= u16_bytes(count as u16));
            let k: int = 2 + lnt.len() as int;
            assert(sec.subrange(k, sec.len() as int) =~= attrs@.subrange(lnt.len() as int, attrs@.len() as int));
            lemma_attrs_bytes_grows(attrs@.subrange(lnt.len() as int, attrs@.len() as int), self.attrs@, abs, c_attrs, *cp);
            assert(sec.subrange(2, k) =~= lnt);
            if a.lines@.len() > 0 {
                let body = choose|body: Seq<u8>| lines_body(body, a.lines@) && named_attr(lnt, "LineNumberTable".spec_bytes(), body, c_l);
                lemma_named_attr_grows(lnt, "LineNumberTable".spec_bytes(), body, c_l, *cp);
                assert(lines_section(sec, k, a.lines@, *cp, body));
            } else {
                assert(lines_section(sec, k, a.lines@, *cp, Seq::empty()));
            }
            assert(attr_section(sec, a.lines@, self.attrs@, abs, *cp));
        }
        Ok(())
    }
}

} // verus!