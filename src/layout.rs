//! Choosing the width of each jump so that every byte offset is known
//! before any jump is written.
//!
//! The code array is a run of segments of fixed bytes with one jump between
//! each two of them. A jump's width depends on where its target ends up,
//! which depends on the widths of the jumps before it, so widths are chosen
//! by starting narrow and widening until every narrow jump reaches its target.
use vstd::prelude::*;
use crate::bytes::Error;

verus! {

/// How a jump's encoded size is decided.
#[derive(Debug, Clone, Copy, PartialEq, Eq)]
pub enum JumpKind {
    /// `goto` or `jsr`: three bytes, or five in the wide form.
    Unconditional,
    /// A conditional branch: three bytes, or eight when it becomes the
    /// inverted branch over a `goto_w`.
    Conditional,
    /// `tableswitch` or `lookupswitch` with this many bytes after the
    /// padding; the padding aligns those bytes to four.
    Switch(u32),
}

/// A jump between two segments, with the position of its target: a byte
/// offset within a segment.
#[derive(Debug, Clone, Copy, PartialEq, Eq)]
pub struct JumpSlot {
    pub kind: JumpKind,
    pub target_seg: usize,
    pub target_off: u32,
}

/// The padding that puts the byte after an opcode at `pos`, plus the
/// padding, on a multiple of four.
pub open spec fn pad(pos: int) -> int {
    3 - pos % 4
}

/// The encoded size of a jump whose opcode is at `pos`.
pub open spec fn jump_size(kind: JumpKind, wide: bool, pos: int) -> int {
    match kind {
        JumpKind::Unconditional => if wide {
            5
        } else {
            3
        },
        JumpKind::Conditional => if wide {
            8
        } else {
            3
        },
        JumpKind::Switch(body) => 1 + pad(pos) + body,
    }
}

/// Where segment `j` starts.
pub open spec fn seg_start(lens: Seq<u32>, js: Seq<JumpSlot>, w: Seq<bool>, j: int) -> int
    decreases j,
{
    if j <= 0 {
        0
    } else {
        let p = seg_start(lens, js, w, j - 1) + lens[j - 1];
        p + jump_size(js[j - 1].kind, w[j - 1], p)
    }
}

/// Where the opcode of jump `j` is.
pub open spec fn jump_pos(lens: Seq<u32>, js: Seq<JumpSlot>, w: Seq<bool>, j: int) -> int {
    seg_start(lens, js, w, j) + lens[j]
}

/// Where the target of jump `j` is.
pub open spec fn target_pos(lens: Seq<u32>, js: Seq<JumpSlot>, w: Seq<bool>, j: int) -> int {
    seg_start(lens, js, w, js[j].target_seg as int) + js[j].target_off
}

/// The branch offset of jump `j`, from its opcode to its target.
pub open spec fn offset(lens: Seq<u32>, js: Seq<JumpSlot>, w: Seq<bool>, j: int) -> int {
    target_pos(lens, js, w, j) - jump_pos(lens, js, w, j)
}

/// A branch offset that a signed 16-bit operand can hold.
pub open spec fn fits16(off: int) -> bool {
    -0x8000 <= off <= 0x7FFF
}

/// The jumps and segments agree: one more segment than jumps, and every
/// target inside its segment.
pub open spec fn shape_ok(lens: Seq<u32>, js: Seq<JumpSlot>) -> bool {
    &&& lens.len() == js.len() + 1
    &&& forall|j: int|
        0 <= j < js.len() ==> {
            &&& #[trigger] js[j].target_seg < lens.len()
            &&& js[j].target_off <= lens[js[j].target_seg as int]
        }
}

/// A choice of widths that every jump can be written with: only branches
/// are wide, and every narrow branch reaches its target.
pub open spec fn widths_ok(lens: Seq<u32>, js: Seq<JumpSlot>, w: Seq<bool>) -> bool {
    &&& w.len() == js.len()
    &&& forall|j: int|
        0 <= j < js.len() ==> (#[trigger] w[j] ==> !(js[j].kind is Switch))
    &&& forall|j: int|
        0 <= j < js.len() && !(js[j].kind is Switch) && !#[trigger] w[j] ==> fits16(
            offset(lens, js, w, j),
        )
}

/// Every wide branch is out of signed 16-bit reach.
pub open spec fn wide_only_when_needed(lens: Seq<u32>, js: Seq<JumpSlot>, w: Seq<bool>) -> bool {
    forall|j: int| 0 <= j < js.len() && #[trigger] w[j] ==> !fits16(offset(lens, js, w, j))
}

pub open spec fn no_switch(js: Seq<JumpSlot>) -> bool {
    forall|j: int| 0 <= j < js.len() ==> !(#[trigger] js[j].kind is Switch)
}

/// The number of narrow jumps.
pub open spec fn narrow_count(w: Seq<bool>) -> nat
    decreases w.len(),
{
    if w.len() == 0 {
        0
    } else {
        narrow_count(w.drop_last()) + if w.last() {
            0nat
        } else {
            1nat
        }
    }
}

proof fn lemma_narrow_count_set(w: Seq<bool>, j: int)
    requires
        0 <= j < w.len(),
        !w[j],
    ensures
        narrow_count(w.update(j, true)) < narrow_count(w),
    decreases w.len(),
{
    let u = w.update(j, true);
    if j == w.len() - 1 {
        assert(u.drop_last() =~= w.drop_last());
    } else {
        assert(u.drop_last() =~= w.drop_last().update(j, true));
        lemma_narrow_count_set(w.drop_last(), j);
    }
}

/// The largest position the code array may reach.
pub const MAX_CODE: u64 = 0x7FFF_FFFF;

/// Where the code array ends.
pub open spec fn code_end(lens: Seq<u32>, js: Seq<JumpSlot>, w: Seq<bool>) -> int {
    seg_start(lens, js, w, js.len() as int) + lens[js.len() as int]
}

proof fn lemma_seg_start_step(lens: Seq<u32>, js: Seq<JumpSlot>, w: Seq<bool>, j: int)
    requires
        0 <= j < js.len(),
        lens.len() == js.len() + 1,
    ensures
        seg_start(lens, js, w, j + 1) >= jump_pos(lens, js, w, j) + 1,
{
}

pub proof fn lemma_seg_start_mono(lens: Seq<u32>, js: Seq<JumpSlot>, w: Seq<bool>, i: int, j: int)
    requires
        0 <= i <= j <= js.len(),
        lens.len() == js.len() + 1,
    ensures
        seg_start(lens, js, w, i) + lens[i] <= seg_start(lens, js, w, j) + lens[j],
        i < j ==> seg_start(lens, js, w, i) + lens[i] < seg_start(lens, js, w, j),
    decreases j - i,
{
    if i < j {
        lemma_seg_start_mono(lens, js, w, i, j - 1);
        lemma_seg_start_step(lens, js, w, j - 1);
    }
}

/// Computes where every segment starts under the widths `w`.
pub fn segment_starts(lens: &Vec<u32>, js: &Vec<JumpSlot>, w: &Vec<bool>) -> (r: Result<
    Vec<u64>,
    Error,
>)
    requires
        lens@.len() == js@.len() + 1,
        w@.len() == js@.len(),
    ensures
        r is Ok <==> code_end(lens@, js@, w@) <= MAX_CODE,
        r is Ok ==> r->Ok_0@.len() == lens@.len() && (forall|j: int|
            0 <= j < lens@.len() ==> #[trigger] r->Ok_0@[j] == seg_start(lens@, js@, w@, j)),
        r is Err ==> r == Err::<Vec<u64>, Error>(Error::Invalid("code length")),
{
    let mut starts: Vec<u64> = Vec::new();
    let mut cur: u64 = 0;
    let mut j: usize = 0;
    while j < js.len()
        invariant
            lens@.len() == js@.len() + 1,
            w@.len() == js@.len(),
            j <= js@.len(),
            starts@.len() == j,
            cur == seg_start(lens@, js@, w@, j as int),
            forall|i: int| 0 <= i < j ==> #[trigger] starts@[i] == seg_start(lens@, js@, w@, i),
            cur <= MAX_CODE,
        decreases js@.len() - j,
    {
        starts.push(cur);
        let p = cur + lens[j] as u64;
        if p > MAX_CODE {
            proof {
                lemma_seg_start_mono(lens@, js@, w@, j as int, js@.len() as int);
            }
            return Err(Error::Invalid("code length"));
        }
        let size: u64 = match js[j].kind {
            JumpKind::Unconditional => if w[j] {
                5
            } else {
                3
            },
            JumpKind::Conditional => if w[j] {
                8
            } else {
                3
            },
            JumpKind::Switch(body) => 1 + (3 - p % 4) + body as u64,
        };
        assert(size == jump_size(js@[j as int].kind, w@[j as int], p as int));
        if p + size > MAX_CODE {
            proof {
                lemma_seg_start_mono(lens@, js@, w@, j + 1, js@.len() as int);
            }
            return Err(Error::Invalid("code length"));
        }
        cur = p + size;
        j = j + 1;
    }
    starts.push(cur);
    if cur + lens[j] as u64 > MAX_CODE {
        return Err(Error::Invalid("code length"));
    }
    Ok(starts)
}

proof fn lemma_dist_mono(
    lens: Seq<u32>,
    js: Seq<JumpSlot>,
    w0: Seq<bool>,
    w: Seq<bool>,
    i: int,
    j: int,
)
    requires
        lens.len() == js.len() + 1,
        w0.len() == js.len(),
        w.len() == js.len(),
        no_switch(js),
        forall|k: int| 0 <= k < js.len() && #[trigger] w0[k] ==> w[k],
        0 <= i <= j <= js.len(),
    ensures
        seg_start(lens, js, w, j) - seg_start(lens, js, w, i) >= seg_start(lens, js, w0, j)
            - seg_start(lens, js, w0, i),
    decreases j - i,
{
    if i < j {
        lemma_dist_mono(lens, js, w0, w, i, j - 1);
        assert(!(js[j - 1].kind is Switch));
        assert(w0[j - 1] ==> w[j - 1]);
    }
}

/// Under more wide jumps and no switch, a branch out of reach stays out of reach.
proof fn lemma_out_of_reach_stays(
    lens: Seq<u32>,
    js: Seq<JumpSlot>,
    w0: Seq<bool>,
    w: Seq<bool>,
    j: int,
)
    requires
        shape_ok(lens, js),
        w0.len() == js.len(),
        w.len() == js.len(),
        no_switch(js),
        forall|k: int| 0 <= k < js.len() && #[trigger] w0[k] ==> w[k],
        0 <= j < js.len(),
        !fits16(offset(lens, js, w0, j)),
    ensures
        !fits16(offset(lens, js, w, j)),
{
    let ts = js[j].target_seg as int;
    assert(js[j].target_seg < lens.len());
    if ts > j {
        lemma_dist_mono(lens, js, w0, w, j, ts);
        lemma_seg_start_mono(lens, js, w0, j, ts);
    } else {
        lemma_dist_mono(lens, js, w0, w, ts, j);
        if ts < j {
            lemma_seg_start_mono(lens, js, w0, ts, j);
        }
    }
}

/// The largest size a jump can take.
pub open spec fn max_jump_size(kind: JumpKind) -> int {
    match kind {
        JumpKind::Unconditional => 5,
        JumpKind::Conditional => 8,
        JumpKind::Switch(body) => 4 + body,
    }
}

/// Where segment `j` starts at the latest: every jump before it at its largest.
pub open spec fn start_bound(lens: Seq<u32>, js: Seq<JumpSlot>, j: int) -> int
    decreases j,
{
    if j <= 0 {
        0
    } else {
        start_bound(lens, js, j - 1) + lens[j - 1] + max_jump_size(js[j - 1].kind)
    }
}

/// The longest the code array can be, whatever the widths.
pub open spec fn code_bound(lens: Seq<u32>, js: Seq<JumpSlot>) -> int {
    start_bound(lens, js, js.len() as int) + lens[js.len() as int]
}

proof fn lemma_start_bound(lens: Seq<u32>, js: Seq<JumpSlot>, w: Seq<bool>, j: int)
    requires
        0 <= j <= js.len(),
        lens.len() == js.len() + 1,
    ensures
        seg_start(lens, js, w, j) <= start_bound(lens, js, j),
    decreases j,
{
    if j > 0 {
        lemma_start_bound(lens, js, w, j - 1);
    }
}

/// Chooses the width of every jump: all start narrow, and a branch that
/// cannot reach its target is widened, until no narrow branch is out of
/// reach. Fails when the code array would pass the largest length.
pub fn choose_widths(lens: &Vec<u32>, js: &Vec<JumpSlot>) -> (r: Result<Vec<bool>, Error>)
    requires
        shape_ok(lens@, js@),
    ensures
        r is Ok ==> widths_ok(lens@, js@, r->Ok_0@) && code_end(lens@, js@, r->Ok_0@)
            <= MAX_CODE,
        r is Ok && no_switch(js@) ==> wide_only_when_needed(lens@, js@, r->Ok_0@),
        r is Err ==> r == Err::<Vec<bool>, Error>(Error::Invalid("code length")),
        code_bound(lens@, js@) <= MAX_CODE ==> r is Ok,
{
    let mut w: Vec<bool> = Vec::new();
    let mut i: usize = 0;
    while i < js.len()
        invariant
            i <= js@.len(),
            w@.len() == i,
            forall|k: int| 0 <= k < i ==> !#[trigger] w@[k],
        decreases js@.len() - i,
    {
        w.push(false);
        i = i + 1;
    }
    loop
        invariant
            shape_ok(lens@, js@),
            w@.len() == js@.len(),
            forall|k: int| 0 <= k < js@.len() && #[trigger] w@[k] ==> !(js@[k].kind is Switch),
            no_switch(js@) ==> wide_only_when_needed(lens@, js@, w@),
        decreases narrow_count(w@),
    {
        proof {
            lemma_start_bound(lens@, js@, w@, js@.len() as int);
        }
        let starts = segment_starts(lens, js, &w)?;
        let ghost w0 = w@;
        let mut changed = false;
        let mut j: usize = 0;
        while j < js.len()
            invariant
                shape_ok(lens@, js@),
                code_end(lens@, js@, w0) <= MAX_CODE,
                starts@.len() == lens@.len(),
                forall|k: int| 0 <= k < lens@.len() ==> #[trigger] starts@[k] == seg_start(lens@, js@, w0, k),
                j <= js@.len(),
                w@.len() == js@.len(),
                w0.len() == js@.len(),
                forall|k: int| 0 <= k < js@.len() && #[trigger] w0[k] ==> w@[k],
                forall|k: int|
                    0 <= k < js@.len() && #[trigger] w@[k] ==> w0[k] || (!(js@[k].kind is Switch)
                        && !fits16(offset(lens@, js@, w0, k))),
                forall|k: int| j <= k < js@.len() ==> #[trigger] w@[k] == w0[k],
                forall|k: int|
                    0 <= k < j && !(js@[k].kind is Switch) && !#[trigger] w@[k] ==> fits16(
                        offset(lens@, js@, w0, k),
                    ),
                forall|k: int| 0 <= k < js@.len() && #[trigger] w0[k] ==> !(js@[k].kind is Switch),
                !changed ==> w@ == w0,
                changed ==> narrow_count(w@) < narrow_count(w0),
                narrow_count(w@) <= narrow_count(w0),
            decreases js@.len() - j,
        {
            let slot = js[j];
            let is_switch = match slot.kind {
                JumpKind::Switch(_) => true,
                _ => false,
            };
            if !is_switch && !w[j] {
                let ts = slot.target_seg;
                proof {
                    assert(js@[j as int].target_seg < lens@.len());
                    lemma_seg_start_mono(lens@, js@, w0, ts as int, js@.len() as int);
                    lemma_seg_start_mono(lens@, js@, w0, j as int, js@.len() as int);
                }
                let target = (starts[ts] + slot.target_off as u64) as i64;
                let here = (starts[j] + lens[j] as u64) as i64;
                let off = target - here;
                assert(off == offset(lens@, js@, w0, j as int));
                if off < -0x8000 || off > 0x7FFF {
                    let ghost before = w@;
                    w.set(j, true);
                    proof {
                        lemma_narrow_count_set(before, j as int);
                    }
                    changed = true;
                }
            }
            j = j + 1;
        }
        if !changed {
            return Ok(w);
        }
        proof {
            if no_switch(js@) {
                assert forall|k: int| 0 <= k < js@.len() && #[trigger] w@[k] implies !fits16(
                    offset(lens@, js@, w@, k),
                ) by {
                    lemma_out_of_reach_stays(lens@, js@, w0, w@, k);
                }
            }
        }
    }
}

} // verus!
