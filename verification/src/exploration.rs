use vstd::prelude::*;

use crate::base_block::{first_at, follows_on, BlockView};
use crate::disassember::{decoded_inst, FlowKind, InstView};
use crate::image::{
    PeHeaders, PeImageView, PeSectionView, IMAGE_NT_OPTIONAL_HDR32_MAGIC,
    IMAGE_NT_OPTIONAL_HDR64_MAGIC, IMAGE_SCN_MEM_EXECUTE,
};
use crate::object::{Bit, Model, Object};
use crate::segment::{code_fill, code_read_len, first_segment, segment_of, SegmentView};

verus! {

/// Why a place in the code was queued for exploration.
#[derive(Debug, Clone, Copy, PartialEq, Eq, Structural)]
pub enum EntryKind {
    Unknown,
    EntryPoint,
    TlsCallback,
    ExportFunction,
    PData,
    Call,
    FallThrough,
    Branch,
    Jmp,
}

/// A place in the code to explore, and why.
#[derive(Debug, Clone, Copy, PartialEq, Eq, Structural)]
pub struct Entry {
    pub kind: EntryKind,
    pub rva: u32,
}

/// A window of 16 zero bytes, what the decoding buffer holds before any read.
pub open spec fn zero_window() -> Seq<u8> {
    Seq::new(16, |i: int| 0u8)
}

/// The decoding buffer after reading code at each address of `ips` in turn,
/// starting from zeros: each read overwrites the front of the buffer with the
/// bytes found, and the rest keeps what earlier reads left.
pub open spec fn window_after(segs: Seq<SegmentView>, ips: Seq<u32>) -> Seq<u8>
    decreases ips.len(),
{
    if ips.len() == 0 {
        zero_window()
    } else {
        code_fill(segs, ips.last(), window_after(segs, ips.drop_last()))
    }
}

/// The addresses of `insts`, cut to 32 bits.
pub open spec fn inst_ips(insts: Seq<InstView>) -> Seq<u32> {
    insts.map_values(|i: InstView| i.ip as u32)
}

/// `b` is the block that a linear sweep from `rva` over `segs` builds: each
/// instruction is decoded, in `bitness`-bit mode, at the address right after
/// the one before, from the buffer as the reads up to its own address left it;
/// code could be read at each of these addresses; the sweep goes on until an
/// instruction ends the block (the block is then complete: no instruction
/// before the last ends it), or until the next
/// address is past the 32-bit space or no code can be read there.
pub open spec fn swept_block(segs: Seq<SegmentView>, bitness: u32, rva: u32, b: BlockView) -> bool {
    let n = b.insts.len();
    &&& b.rva == rva
    &&& n > 0
    &&& b.insts[0].ip == rva
    &&& forall|k: int|
        0 <= k < n ==> {
            &&& #[trigger] b.insts[k] == decoded_inst(
                bitness,
                window_after(segs, inst_ips(b.insts).take(k + 1)),
                b.insts[k].ip,
            )
            &&& b.insts[k].ip <= u32::MAX
            &&& code_read_len(segs, b.insts[k].ip as u32, 16) > 0
            &&& k < n - 1 ==> !b.insts[k].flow.ends_block()
        }
    &&& forall|k: int| 0 < k < n ==> #[trigger] follows_on(b.insts, k)
    &&& b.complete == b.insts[n - 1].flow.ends_block()
    &&& !b.complete ==> (b.end() > u32::MAX || code_read_len(segs, b.end() as u32, 16) == 0)
}

/// The instructions of `insts` are those that a linear sweep from `rva` over
/// `segs` decodes first, in order, and none of them ends a block.
pub open spec fn sweep_prefix(segs: Seq<SegmentView>, rva: u32, insts: Seq<InstView>) -> bool {
    &&& forall|k: int|
        0 <= k < insts.len() ==> {
            &&& #[trigger] insts[k] == decoded_inst(
                64,
                window_after(segs, inst_ips(insts).take(k + 1)),
                insts[k].ip,
            )
            &&& insts[k].wf()
            &&& rva <= insts[k].ip <= u32::MAX
            &&& code_read_len(segs, insts[k].ip as u32, 16) > 0
            &&& !insts[k].flow.ends_block()
        }
    &&& forall|k: int| 0 < k < insts.len() ==> #[trigger] follows_on(insts, k)
}

pub(crate) proof fn lemma_window_push(segs: Seq<SegmentView>, ips: Seq<u32>, ip: u32)
    ensures
        window_after(segs, ips.push(ip)) == code_fill(segs, ip, window_after(segs, ips)),
{
    assert(ips.push(ip).drop_last() =~= ips);
}

/// Appending the next decoded instruction keeps a sweep prefix one.
pub(crate) proof fn lemma_sweep_push(segs: Seq<SegmentView>, rva: u32, insts: Seq<InstView>, inst: InstView, ip: u32)
    requires
        sweep_prefix(segs, rva, insts),
        inst == decoded_inst(64, window_after(segs, inst_ips(insts).push(ip)), ip as u64),
        inst.wf(),
        !inst.flow.ends_block(),
        rva <= ip,
        code_read_len(segs, ip, 16) > 0,
        insts.len() == 0 ==> ip == rva,
        insts.len() > 0 ==> ip == insts.last().ip + insts.last().len,
    ensures
        sweep_prefix(segs, rva, insts.push(inst)),
{
    let n = insts.len() as int;
    let new_insts = insts.push(inst);
    assert(inst_ips(new_insts) =~= inst_ips(insts).push(ip));
    assert(inst_ips(new_insts).take(n + 1) =~= inst_ips(new_insts));
    assert forall|j: int| 1 <= j <= n implies #[trigger] inst_ips(new_insts).take(j)
        =~= inst_ips(insts).take(j) by {}
    assert forall|k: int| 0 <= k < new_insts.len() implies {
        &&& #[trigger] new_insts[k] == decoded_inst(
            64,
            window_after(segs, inst_ips(new_insts).take(k + 1)),
            new_insts[k].ip,
        )
        &&& new_insts[k].wf()
        &&& rva <= new_insts[k].ip <= u32::MAX
        &&& code_read_len(segs, new_insts[k].ip as u32, 16) > 0
        &&& !new_insts[k].flow.ends_block()
    } by {
        if k < n {
            assert(new_insts[k] == insts[k]);
        }
    }
    assert forall|k: int| 0 < k < new_insts.len() implies #[trigger] follows_on(new_insts, k) by {
        assert(new_insts[k - 1] == insts[k - 1]);
        if k < n {
            assert(new_insts[k] == insts[k]);
            assert(follows_on(insts, k));
        }
    }
}

/// A sweep prefix followed by one more decoded instruction, where the sweep
/// stops after that one, is a swept block.
pub(crate) proof fn lemma_sweep_done(segs: Seq<SegmentView>, rva: u32, b: BlockView)
    requires
        b.rva == rva,
        b.insts.len() > 0,
        b.insts[0].ip == rva,
        sweep_prefix(segs, rva, b.insts.drop_last()),
        ({
            let last = b.insts.last();
            &&& last == decoded_inst(64, window_after(segs, inst_ips(b.insts)), last.ip)
            &&& last.wf()
            &&& rva <= last.ip <= u32::MAX
            &&& code_read_len(segs, last.ip as u32, 16) > 0
        }),
        b.insts.len() > 1 ==> b.insts.last().ip == b.insts[b.insts.len() - 2].ip + b.insts[b.insts.len() - 2].len,
        b.complete == b.insts.last().flow.ends_block(),
        !b.complete ==> (b.end() > u32::MAX || code_read_len(segs, b.end() as u32, 16) == 0),
    ensures
        swept_block(segs, 64, rva, b),
        b.is_run(),
{
    let n = b.insts.len() as int;
    let prefix = b.insts.drop_last();
    assert(inst_ips(b.insts).take(n) =~= inst_ips(b.insts));
    assert forall|j: int| 1 <= j < n implies #[trigger] inst_ips(b.insts).take(j)
        =~= inst_ips(prefix).take(j) by {}
    assert forall|k: int| 0 <= k < n implies {
        &&& #[trigger] b.insts[k] == decoded_inst(
            64,
            window_after(segs, inst_ips(b.insts).take(k + 1)),
            b.insts[k].ip,
        )
        &&& b.insts[k].ip <= u32::MAX
        &&& code_read_len(segs, b.insts[k].ip as u32, 16) > 0
        &&& b.insts[k].wf()
        &&& rva <= b.insts[k].ip
        &&& k < n - 1 ==> !b.insts[k].flow.ends_block()
    } by {
        if k < n - 1 {
            assert(b.insts[k] == prefix[k]);
        }
    }
    assert forall|k: int| 0 < k < n implies #[trigger] follows_on(b.insts, k) by {
        assert(b.insts[k - 1] == prefix[k - 1]);
        if k < n - 1 {
            assert(b.insts[k] == prefix[k]);
            assert(follows_on(prefix, k));
        }
    }
}

/// The entries for the direct calls among `insts`, in order: each call's
/// target, cut to 32 bits.
pub open spec fn call_entries(insts: Seq<InstView>) -> Seq<Entry>
    decreases insts.len(),
{
    if insts.len() == 0 {
        Seq::empty()
    } else {
        let rest = call_entries(insts.drop_last());
        let last = insts.last();
        if last.flow == FlowKind::Call {
            rest.push(Entry { kind: EntryKind::Call, rva: last.near_branch_target as u32 })
        } else {
            rest
        }
    }
}

/// The entries for where control goes after the last of `insts`: both ways
/// of a conditional branch (falling through first), or the target of a jump.
pub open spec fn tail_entries(insts: Seq<InstView>) -> Seq<Entry> {
    if insts.len() == 0 {
        Seq::empty()
    } else {
        let last = insts.last();
        if last.flow == FlowKind::ConditionalBranch {
            seq![
                Entry { kind: EntryKind::FallThrough, rva: last.next_ip as u32 },
                Entry { kind: EntryKind::Branch, rva: last.near_branch_target as u32 },
            ]
        } else if last.flow == FlowKind::UnconditionalBranch {
            seq![Entry { kind: EntryKind::Jmp, rva: last.near_branch_target as u32 }]
        } else {
            Seq::empty()
        }
    }
}

/// The places that exploring the block `b` queues: its direct calls, then
/// where control goes after it.
pub open spec fn successor_entries(b: BlockView) -> Seq<Entry> {
    call_entries(b.insts) + tail_entries(b.insts)
}

/// Some entry of `pending` is at `rva`.
pub open spec fn in_pending(pending: Seq<Entry>, rva: u32) -> bool {
    exists|i: int| 0 <= i < pending.len() && (#[trigger] pending[i]).rva == rva
}

/// `rva` was explored or is queued.
pub open spec fn reached(seen: Set<u32>, pending: Seq<Entry>, rva: u32) -> bool {
    seen.contains(rva) || in_pending(pending, rva)
}

/// Every place that the block `b` leads to was explored or is queued.
pub open spec fn successors_reached(b: BlockView, seen: Set<u32>, pending: Seq<Entry>) -> bool {
    forall|j: int|
        0 <= j < successor_entries(b).len() ==> reached(seen, pending, #[trigger] successor_entries(b)[j].rva)
}

/// `k` is the start of the last block that starts at or before `rva`.
pub open spec fn is_last_start(blocks: Map<u32, BlockView>, rva: u32, k: u32) -> bool {
    &&& blocks.contains_key(k)
    &&& k <= rva
    &&& forall|k2: u32| #[trigger] blocks.contains_key(k2) && k2 <= rva ==> k2 <= k
}

/// The start of the last block that starts at or before `rva`, if any.
pub open spec fn block_before(blocks: Map<u32, BlockView>, rva: u32) -> Option<u32> {
    if exists|k: u32| is_last_start(blocks, rva, k) {
        Some(choose|k: u32| is_last_start(blocks, rva, k))
    } else {
        None
    }
}

/// No block starts at `rva`, and the last one that starts before it has no
/// size that can be computed: there, exploring `rva` fails.
pub open spec fn unmeasurable_before(blocks: Map<u32, BlockView>, rva: u32) -> bool {
    &&& !blocks.contains_key(rva)
    &&& block_before(blocks, rva) matches Some(s)
    &&& !blocks[s].measurable()
}

/// The blocks `new` after exploring `rva` from the blocks `old` over the code
/// `segs`: unchanged where a block starts at `rva`; else, where the last block
/// that starts before `rva` contains it, that block cut in two at `rva` (when
/// `rva` is within its extent and an instruction of it starts there; else
/// unchanged); else the block swept from `rva`, where code can be read there.
pub open spec fn placed(old: Map<u32, BlockView>, segs: Seq<SegmentView>, rva: u32, new: Map<u32, BlockView>) -> bool {
    if old.contains_key(rva) {
        new == old
    } else if block_before(old, rva) is Some && old[block_before(old, rva)->0].contains(rva) {
        let start = block_before(old, rva)->0;
        let b = old[start];
        let k = first_at(b.insts, rva, 0);
        if b.spans(rva) && k >= 0 {
            new == old.insert(start, BlockView { insts: b.insts.take(k), ..b }).insert(
                rva,
                BlockView { rva: rva, insts: b.insts.skip(k), complete: true },
            )
        } else {
            new == old
        }
    } else if code_read_len(segs, rva, 16) == 0 {
        new == old
    } else {
        &&& new.contains_key(rva)
        &&& swept_block(segs, 64, rva, new[rva])
        &&& new == old.insert(rva, new[rva])
    }
}

/// The block at `k` is in order: it starts at `k`, is a run, and `k` was explored.
pub open spec fn block_in_order(blocks: Map<u32, BlockView>, seen: Set<u32>, k: u32) -> bool {
    &&& blocks[k].rva == k
    &&& blocks[k].is_run()
    &&& seen.contains(k)
}

/// The sections of `s` that hold executable code, in order.
pub open spec fn code_sections_of(s: Seq<PeSectionView>) -> Seq<PeSectionView>
    decreases s.len(),
{
    if s.len() == 0 {
        Seq::empty()
    } else {
        let rest = code_sections_of(s.drop_last());
        if s.last().header.characteristics & IMAGE_SCN_MEM_EXECUTE != 0 {
            rest.push(s.last())
        } else {
            rest
        }
    }
}

/// The code segments of the image `pe`: one for each executable section, in
/// the order of the section table.
pub open spec fn code_segments_of(pe: PeImageView) -> Seq<SegmentView> {
    code_sections_of(pe.sections).map_values(|s: PeSectionView| segment_of(s))
}

/// The places that exploration of the image `pe` starts from: the entry
/// point, then each function of the export table, in order, where the table
/// was read.
pub open spec fn known_entries(pe: PeImageView) -> Seq<Entry> {
    let ep = Entry { kind: EntryKind::EntryPoint, rva: pe.headers.entry_point };
    seq![ep] + match pe.exports {
        Some(f) => f.map_values(|r: u32| Entry { kind: EntryKind::ExportFunction, rva: r }),
        None => Seq::empty(),
    }
}

/// The object that the header fields `h` describe, where its optional-header
/// magic is known.
pub open spec fn base_information(h: PeHeaders) -> Option<Object> {
    if h.optional_magic == IMAGE_NT_OPTIONAL_HDR32_MAGIC {
        Some(Object { model: Model::Win32, bit: Bit::Bit32, entry_point: h.entry_point, imagebase: h.image_base })
    } else if h.optional_magic == IMAGE_NT_OPTIONAL_HDR64_MAGIC {
        Some(Object { model: Model::Win64, bit: Bit::Bit64, entry_point: h.entry_point, imagebase: h.image_base })
    } else {
        None
    }
}

/// Every block is in order, and every place that a block other than the one
/// at `except` (where given) leads to was explored or is queued.
pub open spec fn blocks_in_order(
    blocks: Map<u32, BlockView>,
    seen: Set<u32>,
    pending: Seq<Entry>,
    except: Option<u32>,
) -> bool {
    forall|k: u32|
        #[trigger] blocks.contains_key(k) ==> {
            &&& block_in_order(blocks, seen, k)
            &&& (except != Some(k) ==> successors_reached(blocks[k], seen, pending))
        }
}

/// The last start at or before `rva` is the one that `block_before` names.
pub(crate) proof fn lemma_block_before(blocks: Map<u32, BlockView>, rva: u32, k: u32)
    requires
        is_last_start(blocks, rva, k),
    ensures
        block_before(blocks, rva) == Some(k),
{
    let c = choose|c: u32| is_last_start(blocks, rva, c);
    assert(is_last_start(blocks, rva, c));
    assert(c <= k && k <= c);
}

/// Where every block starts after `rva`, no block comes before it.
pub(crate) proof fn lemma_no_block_before(blocks: Map<u32, BlockView>, rva: u32)
    requires
        forall|k: u32| #[trigger] blocks.contains_key(k) ==> k > rva,
    ensures
        block_before(blocks, rva) is None,
{
    if exists|k: u32| is_last_start(blocks, rva, k) {
        let c = choose|c: u32| is_last_start(blocks, rva, c);
        assert(blocks.contains_key(c));
    }
}

/// The call entries of a prefix of `insts` are a prefix of those of `insts`.
pub(crate) proof fn lemma_call_entries_prefix(insts: Seq<InstView>, m: int)
    requires
        0 <= m <= insts.len(),
    ensures
        call_entries(insts.take(m)).len() <= call_entries(insts).len(),
        forall|j: int|
            0 <= j < call_entries(insts.take(m)).len() ==> #[trigger] call_entries(insts.take(m))[j]
                == call_entries(insts)[j],
    decreases insts.len() - m,
{
    if m == insts.len() {
        assert(insts.take(m) =~= insts);
    } else {
        let shorter = insts.drop_last();
        assert(insts.take(m) =~= shorter.take(m));
        lemma_call_entries_prefix(shorter, m);
    }
}

/// Entries queued before stay queued when more are queued behind them.
pub(crate) proof fn lemma_in_pending_extend(p: Seq<Entry>, q: Seq<Entry>, rva: u32)
    requires
        in_pending(p, rva),
    ensures
        in_pending(p + q, rva),
{
    let i = choose|i: int| 0 <= i < p.len() && (#[trigger] p[i]).rva == rva;
    assert((p + q)[i] == p[i]);
}

/// The entries queued behind `p` are queued.
pub(crate) proof fn lemma_in_pending_appended(p: Seq<Entry>, q: Seq<Entry>, j: int)
    requires
        0 <= j < q.len(),
    ensures
        in_pending(p + q, q[j].rva),
{
    assert((p + q)[p.len() + j] == q[j]);
}

/// Taking the front entry off the queue, once its address is explored, loses nothing.
pub(crate) proof fn lemma_reached_pop(seen: Set<u32>, p: Seq<Entry>, rva: u32)
    requires
        p.len() > 0,
        seen.contains(p[0].rva),
        reached(seen, p, rva),
    ensures
        reached(seen, p.subrange(1, p.len() as int), rva),
{
    if !seen.contains(rva) {
        let i = choose|i: int| 0 <= i < p.len() && (#[trigger] p[i]).rva == rva;
        assert(i != 0);
        assert(p.subrange(1, p.len() as int)[i - 1] == p[i]);
    }
}

/// Exploring more and queueing more keep every block in order.
pub(crate) proof fn lemma_in_order_grow(
    blocks: Map<u32, BlockView>,
    seen: Set<u32>,
    pending: Seq<Entry>,
    seen2: Set<u32>,
    more: Seq<Entry>,
    except: Option<u32>,
)
    requires
        blocks_in_order(blocks, seen, pending, except),
        seen.subset_of(seen2),
    ensures
        blocks_in_order(blocks, seen2, pending + more, except),
{
    assert forall|k: u32| #[trigger] blocks.contains_key(k) implies {
        &&& block_in_order(blocks, seen2, k)
        &&& (except != Some(k) ==> successors_reached(blocks[k], seen2, pending + more))
    } by {
        if except != Some(k) {
            assert forall|j: int| 0 <= j < successor_entries(blocks[k]).len() implies reached(
                seen2,
                pending + more,
                #[trigger] successor_entries(blocks[k])[j].rva,
            ) by {
                let t = successor_entries(blocks[k])[j].rva;
                assert(reached(seen, pending, t));
                if !seen.contains(t) {
                    lemma_in_pending_extend(pending, more, t);
                }
            }
        }
    }
}

/// In a run, addresses grow along the block.
pub(crate) proof fn lemma_run_ips_grow(b: BlockView, i: int, j: int)
    requires
        b.is_run(),
        0 <= i <= j < b.insts.len(),
    ensures
        b.insts[i].ip <= b.insts[j].ip,
    decreases j - i,
{
    if i < j {
        lemma_run_ips_grow(b, i, j - 1);
        assert(follows_on(b.insts, j));
    }
}

/// Cutting a run at instruction `k`, the first at `rva`, leaves two runs.
pub(crate) proof fn lemma_run_split(b: BlockView, rva: u32, k: int)
    requires
        b.is_run(),
        0 < k < b.insts.len(),
        b.insts[k].ip as u32 == rva,
    ensures
        (BlockView { insts: b.insts.take(k), ..b }).is_run(),
        (BlockView { rva: rva, insts: b.insts.skip(k), complete: true }).is_run(),
{
    let pre = BlockView { insts: b.insts.take(k), ..b };
    let post = BlockView { rva: rva, insts: b.insts.skip(k), complete: true };
    assert(pre.insts[0] == b.insts[0]);
    assert forall|m: int| 0 <= m < pre.insts.len() implies (#[trigger] pre.insts[m]).wf() && pre.rva
        <= pre.insts[m].ip <= u32::MAX by {
        assert(pre.insts[m] == b.insts[m]);
    }
    assert forall|m: int| 0 < m < pre.insts.len() implies #[trigger] follows_on(pre.insts, m) by {
        assert(follows_on(b.insts, m));
        assert(pre.insts[m] == b.insts[m]);
        assert(pre.insts[m - 1] == b.insts[m - 1]);
    }
    assert(b.insts[k].ip == rva);
    assert(post.insts[0] == b.insts[k]);
    assert forall|m: int| 0 <= m < post.insts.len() implies (#[trigger] post.insts[m]).wf() && post.rva
        <= post.insts[m].ip <= u32::MAX by {
        assert(post.insts[m] == b.insts[k + m]);
        lemma_run_ips_grow(b, k, k + m);
    }
    assert forall|m: int| 0 < m < post.insts.len() implies #[trigger] follows_on(post.insts, m) by {
        assert(follows_on(b.insts, k + m));
        assert(post.insts[m] == b.insts[k + m]);
        assert(post.insts[m - 1] == b.insts[k + m - 1]);
    }
}

/// The places that the front part of a split run leads to are among those
/// that the whole run led to.
pub(crate) proof fn lemma_split_successors(b: BlockView, k: int, seen: Set<u32>, pending: Seq<Entry>)
    requires
        b.is_run(),
        0 < k < b.insts.len(),
        successors_reached(b, seen, pending),
    ensures
        successors_reached(BlockView { insts: b.insts.take(k), ..b }, seen, pending),
{
    let pre = BlockView { insts: b.insts.take(k), ..b };
    assert(follows_on(b.insts, k));
    assert(pre.insts.last() == b.insts[k - 1]);
    assert(tail_entries(pre.insts) =~= Seq::<Entry>::empty());
    lemma_call_entries_prefix(b.insts, k);
    assert forall|j: int| 0 <= j < successor_entries(pre).len() implies reached(
        seen,
        pending,
        #[trigger] successor_entries(pre)[j].rva,
    ) by {
        assert(successor_entries(pre)[j] == call_entries(pre.insts)[j]);
        assert(call_entries(pre.insts)[j] == call_entries(b.insts)[j]);
        assert(successor_entries(b)[j] == call_entries(b.insts)[j]);
    }
}

/// Where `first_at` finds an index, the instruction there is at `rva` and
/// none before it (from `from` on) is.
pub(crate) proof fn lemma_first_at_found(insts: Seq<InstView>, rva: u32, from: int)
    requires
        first_at(insts, rva, from) >= 0,
    ensures
        from <= first_at(insts, rva, from) < insts.len(),
        insts[first_at(insts, rva, from)].ip as u32 == rva,
        forall|j: int| from <= j < first_at(insts, rva, from) ==> insts[j].ip as u32 != rva,
    decreases insts.len() - from,
{
    if from >= 0 && from < insts.len() && insts[from].ip as u32 != rva {
        lemma_first_at_found(insts, rva, from + 1);
    }
}

/// Taking the front entry off the queue, once its address is explored, keeps
/// every block in order.
pub(crate) proof fn lemma_in_order_pop(blocks: Map<u32, BlockView>, seen: Set<u32>, p: Seq<Entry>)
    requires
        blocks_in_order(blocks, seen, p, None),
        p.len() > 0,
        seen.contains(p[0].rva),
    ensures
        blocks_in_order(blocks, seen, p.subrange(1, p.len() as int), None),
{
    assert forall|k: u32| #[trigger] blocks.contains_key(k) implies {
        &&& block_in_order(blocks, seen, k)
        &&& successors_reached(blocks[k], seen, p.subrange(1, p.len() as int))
    } by {
        assert forall|j: int| 0 <= j < successor_entries(blocks[k]).len() implies reached(
            seen,
            p.subrange(1, p.len() as int),
            #[trigger] successor_entries(blocks[k])[j].rva,
        ) by {
            lemma_reached_pop(seen, p, successor_entries(blocks[k])[j].rva);
        }
    }
}

/// The call entries of `insts` hold one for each direct call among them.
pub(crate) proof fn lemma_call_in_entries(insts: Seq<InstView>, i: int)
    requires
        0 <= i < insts.len(),
        insts[i].flow == FlowKind::Call,
    ensures
        exists|j: int|
            0 <= j < call_entries(insts).len() && (#[trigger] call_entries(insts)[j]).rva
                == insts[i].near_branch_target as u32,
    decreases insts.len(),
{
    let rest = insts.drop_last();
    if i == insts.len() - 1 {
        let j = call_entries(rest).len() as int;
        assert(call_entries(insts)[j].rva == insts[i].near_branch_target as u32);
    } else {
        assert(rest[i] == insts[i]);
        lemma_call_in_entries(rest, i);
        let j = choose|j: int|
            0 <= j < call_entries(rest).len() && (#[trigger] call_entries(rest)[j]).rva
                == rest[i].near_branch_target as u32;
        assert(call_entries(insts)[j] == call_entries(rest)[j]);
    }
}

/// Once exploration has nothing left queued, every place that a block leads
/// to has been explored: the target of each direct call in it, and, after its
/// last instruction, both ways of a conditional branch or the target of a jump
/// (each cut to 32 bits).
pub proof fn lemma_targets_explored(
    blocks: Map<u32, BlockView>,
    seen: Set<u32>,
    pending: Seq<Entry>,
    k: u32,
    i: int,
)
    requires
        blocks_in_order(blocks, seen, pending, None),
        pending.len() == 0,
        blocks.contains_key(k),
        0 <= i < blocks[k].insts.len(),
    ensures
        ({
            let inst = blocks[k].insts[i];
            let last = i == blocks[k].insts.len() - 1;
            &&& inst.flow == FlowKind::Call ==> seen.contains(inst.near_branch_target as u32)
            &&& last && inst.flow == FlowKind::ConditionalBranch ==> seen.contains(inst.next_ip as u32)
                && seen.contains(inst.near_branch_target as u32)
            &&& last && inst.flow == FlowKind::UnconditionalBranch ==> seen.contains(
                inst.near_branch_target as u32,
            )
        }),
{
    let b = blocks[k];
    let inst = b.insts[i];
    let succ = successor_entries(b);
    let calls = call_entries(b.insts);
    assert(successors_reached(b, seen, pending));
    if inst.flow == FlowKind::Call {
        lemma_call_in_entries(b.insts, i);
        let j = choose|j: int|
            0 <= j < calls.len() && (#[trigger] calls[j]).rva == inst.near_branch_target as u32;
        assert(succ[j] == calls[j]);
        assert(reached(seen, pending, succ[j].rva));
    }
    if i == b.insts.len() - 1 && inst.flow == FlowKind::ConditionalBranch {
        let n = calls.len() as int;
        assert(succ[n].rva == inst.next_ip as u32);
        assert(succ[n + 1].rva == inst.near_branch_target as u32);
        assert(reached(seen, pending, succ[n].rva));
        assert(reached(seen, pending, succ[n + 1].rva));
    }
    if i == b.insts.len() - 1 && inst.flow == FlowKind::UnconditionalBranch {
        let n = calls.len() as int;
        assert(succ[n].rva == inst.near_branch_target as u32);
        assert(reached(seen, pending, succ[n].rva));
    }
}

/// A trace of exploration steps extended by one more step is a trace.
pub(crate) proof fn lemma_trace_push(segs: Seq<SegmentView>, trace: Seq<ExploreState>, t: ExploreState)
    requires
        trace.len() >= 1,
        forall|i: int| 0 <= i < trace.len() - 1 ==> #[trigger] step_at(segs, trace, i),
        explore_step(segs, trace.last(), t),
    ensures
        forall|i: int| 0 <= i < trace.push(t).len() - 1 ==> #[trigger] step_at(segs, trace.push(t), i),
{
    let longer = trace.push(t);
    assert forall|i: int| 0 <= i < longer.len() - 1 implies #[trigger] step_at(segs, longer, i) by {
        assert(longer[i + 1] == if i + 1 < trace.len() { trace[i + 1] } else { t });
        assert(longer[i] == trace[i]);
        if i < trace.len() - 1 {
            assert(step_at(segs, trace, i));
        }
    }
}

/// A set of 32-bit values is finite and has at most 2^32 elements.
pub(crate) proof fn lemma_u32_set_bound(s: Set<u32>)
    ensures
        s.finite(),
        s.len() <= 0x1_0000_0000,
{
    let full = Set::<u32>::range(0, u32::MAX).insert(u32::MAX);
    <u32 as vstd::set_lib::FiniteRange>::range_properties(0, u32::MAX);
    assert(s.subset_of(full));
    vstd::set_lib::lemma_set_subset_finite(full, s);
    vstd::set_lib::lemma_len_subset(s, full);
}

/// A moment of an exploration: the blocks found by start address, the
/// addresses explored, and the places queued, front first.
pub struct ExploreState {
    pub blocks: Map<u32, BlockView>,
    pub seen: Set<u32>,
    pub pending: Seq<Entry>,
}

/// The exploration before its first step, with `known` queued.
pub open spec fn exploration_start(known: Seq<Entry>) -> ExploreState {
    ExploreState { blocks: Map::empty(), seen: Set::empty(), pending: known }
}

/// One step of exploring the code `segs`, from `s` to `t`: the front place is
/// taken off the queue; where its address was explored already, nothing else
/// happens; else the address is marked explored, the block there is placed
/// (see `placed`; the step cannot be taken where that fails) and the places
/// that block leads to are queued behind the rest.
pub open spec fn explore_step(segs: Seq<SegmentView>, s: ExploreState, t: ExploreState) -> bool {
    &&& s.pending.len() > 0
    &&& ({
        let rva = s.pending[0].rva;
        let rest = s.pending.subrange(1, s.pending.len() as int);
        if s.seen.contains(rva) {
            t == ExploreState { blocks: s.blocks, seen: s.seen, pending: rest }
        } else {
            &&& t.seen == s.seen.insert(rva)
            &&& !unmeasurable_before(s.blocks, rva)
            &&& placed(s.blocks, segs, rva, t.blocks)
            &&& t.pending == rest + (if t.blocks.contains_key(rva) {
                successor_entries(t.blocks[rva])
            } else {
                Seq::empty()
            })
        }
    })
}

/// `trace` goes from moment `i` to moment `i + 1` by one exploration step.
pub open spec fn step_at(segs: Seq<SegmentView>, trace: Seq<ExploreState>, i: int) -> bool {
    explore_step(segs, trace[i], trace[i + 1])
}

/// Exploring the code `segs` goes from `from` to `to` in some number of steps.
pub open spec fn explores_to(segs: Seq<SegmentView>, from: ExploreState, to: ExploreState) -> bool {
    exists|trace: Seq<ExploreState>|
        #![trigger trace[0]]
        {
            &&& trace.len() >= 1
            &&& trace[0] == from
            &&& trace.last() == to
            &&& forall|i: int| 0 <= i < trace.len() - 1 ==> #[trigger] step_at(segs, trace, i)
        }
}

/// At `s`, the next step explores `rva` and fails there: no block starts at
/// `rva`, and the last one that starts before it, at `start`, has no size
/// that can be computed.
pub open spec fn fails_next(s: ExploreState, start: u32, rva: u32) -> bool {
    &&& s.pending.len() > 0
    &&& s.pending[0].rva == rva
    &&& !s.seen.contains(rva)
    &&& unmeasurable_before(s.blocks, rva)
    &&& block_before(s.blocks, rva) == Some(start)
}

/// Cutting a complete run in two before an instruction at `rva` that is not
/// its first: the front part ends right at `rva`, so its size is `rva` less
/// the start; both parts can be measured; and their sizes add up to the size
/// of the whole block.
pub proof fn lemma_split_sizes(b: BlockView, rva: u32)
    requires
        b.is_run(),
        b.measurable(),
        b.rva < rva,
        first_at(b.insts, rva, 0) >= 0,
    ensures
        ({
            let k = first_at(b.insts, rva, 0);
            let front = BlockView { insts: b.insts.take(k), ..b };
            let back = BlockView { rva: rva, insts: b.insts.skip(k), complete: true };
            &&& 0 < k < b.insts.len()
            &&& front.end() == rva
            &&& front.size() == rva - b.rva
            &&& front.measurable()
            &&& back.measurable()
            &&& front.size() + back.size() == b.size()
        }),
{
    let k = first_at(b.insts, rva, 0);
    lemma_first_at_found(b.insts, rva, 0);
    assert(b.insts[0].ip == b.rva);
    assert(k > 0);
    assert(follows_on(b.insts, k));
    assert(b.insts[k].ip == rva);
    let front = BlockView { insts: b.insts.take(k), ..b };
    let back = BlockView { rva: rva, insts: b.insts.skip(k), complete: true };
    assert(front.insts.last() == b.insts[k - 1]);
    assert(back.insts.last() == b.insts.last());
    lemma_run_ips_grow(b, k, b.insts.len() - 1);
}

/// Exploring a place keeps every block filed under its own start: where each
/// block of `old` starts at its key, so does each block of `new`; no key goes
/// away, and the only key that can come is the place explored.
pub proof fn lemma_placed_keys(old: Map<u32, BlockView>, segs: Seq<SegmentView>, rva: u32, new: Map<u32, BlockView>)
    requires
        placed(old, segs, rva, new),
        forall|k: u32| #[trigger] old.contains_key(k) ==> old[k].rva == k,
    ensures
        forall|k: u32| #[trigger] new.contains_key(k) ==> new[k].rva == k,
        forall|k: u32| #[trigger] old.contains_key(k) ==> new.contains_key(k),
        forall|k: u32| #[trigger] new.contains_key(k) ==> old.contains_key(k) || k == rva,
{
    if !old.contains_key(rva) && block_before(old, rva) is Some && old[block_before(old, rva)->0].contains(rva) {
        let start = block_before(old, rva)->0;
        assert(old.contains_key(start)) by {
            let c = choose|c: u32| is_last_start(old, rva, c);
            assert(is_last_start(old, rva, c));
        }
    }
}

/// Exploring a place again, once a block starts there, finds that very block:
/// the blocks stay as they are, and the same places are queued again.
pub proof fn lemma_walk_again(
    old: Map<u32, BlockView>,
    segs: Seq<SegmentView>,
    rva: u32,
    mid: Map<u32, BlockView>,
    new: Map<u32, BlockView>,
)
    requires
        placed(old, segs, rva, mid),
        mid.contains_key(rva),
        placed(mid, segs, rva, new),
    ensures
        new == mid,
        successor_entries(new[rva]) == successor_entries(mid[rva]),
{
}

/// Two blocks swept from the same place over the same code agree on their
/// first `k + 1` instructions.
proof fn lemma_swept_agree(segs: Seq<SegmentView>, rva: u32, b1: BlockView, b2: BlockView, k: int)
    requires
        swept_block(segs, 64, rva, b1),
        swept_block(segs, 64, rva, b2),
        0 <= k < b1.insts.len(),
        k < b2.insts.len(),
    ensures
        forall|j: int| 0 <= j <= k ==> b1.insts[j] == b2.insts[j],
    decreases k,
{
    if k > 0 {
        lemma_swept_agree(segs, rva, b1, b2, k - 1);
        assert(follows_on(b1.insts, k));
        assert(follows_on(b2.insts, k));
    }
    assert(b1.insts[k].ip == b2.insts[k].ip);
    assert(inst_ips(b1.insts).take(k + 1) =~= inst_ips(b2.insts).take(k + 1)) by {
        assert forall|j: int| 0 <= j < k + 1 implies #[trigger] inst_ips(b1.insts).take(k + 1)[j] == inst_ips(
            b2.insts,
        ).take(k + 1)[j] by {
            if j < k {
                assert(b1.insts[j] == b2.insts[j]);
            }
        }
    }
    assert(b1.insts[k] == decoded_inst(64, window_after(segs, inst_ips(b1.insts).take(k + 1)), b1.insts[k].ip));
    assert(b2.insts[k] == decoded_inst(64, window_after(segs, inst_ips(b2.insts).take(k + 1)), b2.insts[k].ip));
}

/// A linear sweep from a place over given code builds one block only.
proof fn lemma_swept_unique(segs: Seq<SegmentView>, rva: u32, b1: BlockView, b2: BlockView)
    requires
        swept_block(segs, 64, rva, b1),
        swept_block(segs, 64, rva, b2),
    ensures
        b1 == b2,
{
    let n1 = b1.insts.len() as int;
    let n2 = b2.insts.len() as int;
    if n1 < n2 {
        lemma_swept_agree(segs, rva, b1, b2, n1 - 1);
        assert(b2.insts[n1 - 1] == b1.insts[n1 - 1]);
        assert(follows_on(b2.insts, n1));
        assert(false);
    } else if n2 < n1 {
        lemma_swept_agree(segs, rva, b2, b1, n2 - 1);
        assert(b1.insts[n2 - 1] == b2.insts[n2 - 1]);
        assert(follows_on(b1.insts, n2));
        assert(false);
    } else {
        lemma_swept_agree(segs, rva, b1, b2, n1 - 1);
        assert(b1.insts =~= b2.insts);
    }
}

/// One exploration step leads to one moment only.
pub proof fn lemma_step_deterministic(segs: Seq<SegmentView>, s: ExploreState, t1: ExploreState, t2: ExploreState)
    requires
        explore_step(segs, s, t1),
        explore_step(segs, s, t2),
    ensures
        t1 == t2,
{
    let rva = s.pending[0].rva;
    if !s.seen.contains(rva) {
        if !s.blocks.contains_key(rva) && !(block_before(s.blocks, rva) is Some
            && s.blocks[block_before(s.blocks, rva)->0].contains(rva)) && code_read_len(segs, rva, 16) != 0 {
            lemma_swept_unique(segs, rva, t1.blocks[rva], t2.blocks[rva]);
        }
        assert(t1.blocks == t2.blocks);
    }
}

/// Two traces of exploration from the same moment agree step by step.
proof fn lemma_traces_agree(segs: Seq<SegmentView>, tr1: Seq<ExploreState>, tr2: Seq<ExploreState>, i: int)
    requires
        tr1.len() >= 1,
        tr2.len() >= 1,
        tr1[0] == tr2[0],
        forall|j: int| 0 <= j < tr1.len() - 1 ==> #[trigger] step_at(segs, tr1, j),
        forall|j: int| 0 <= j < tr2.len() - 1 ==> #[trigger] step_at(segs, tr2, j),
        0 <= i < tr1.len(),
        i < tr2.len(),
    ensures
        tr1[i] == tr2[i],
    decreases i,
{
    if i > 0 {
        lemma_traces_agree(segs, tr1, tr2, i - 1);
        assert(step_at(segs, tr1, i - 1));
        assert(step_at(segs, tr2, i - 1));
        lemma_step_deterministic(segs, tr1[i - 1], tr1[i], tr2[i]);
    }
}

/// An exploration either runs until nothing is queued or fails at some
/// place, never both: where it reaches a moment with nothing queued from
/// `from`, no moment that it reaches from there fails at its next step.
pub proof fn lemma_outcome_unique(
    segs: Seq<SegmentView>,
    from: ExploreState,
    fin: ExploreState,
    s: ExploreState,
    start: u32,
    rva: u32,
)
    requires
        explores_to(segs, from, fin),
        fin.pending.len() == 0,
        explores_to(segs, from, s),
    ensures
        !fails_next(s, start, rva),
{
    let tr1 = choose|tr: Seq<ExploreState>|
        #![trigger tr[0]]
        {
            &&& tr.len() >= 1
            &&& tr[0] == from
            &&& tr.last() == fin
            &&& forall|i: int| 0 <= i < tr.len() - 1 ==> #[trigger] step_at(segs, tr, i)
        };
    let tr2 = choose|tr: Seq<ExploreState>|
        #![trigger tr[0]]
        {
            &&& tr.len() >= 1
            &&& tr[0] == from
            &&& tr.last() == s
            &&& forall|i: int| 0 <= i < tr.len() - 1 ==> #[trigger] step_at(segs, tr, i)
        };
    let n1 = tr1.len() as int;
    let n2 = tr2.len() as int;
    if fails_next(s, start, rva) {
        if n1 <= n2 {
            lemma_traces_agree(segs, tr1, tr2, n1 - 1);
            if n1 < n2 {
                assert(step_at(segs, tr2, n1 - 1));
            }
        } else {
            lemma_traces_agree(segs, tr1, tr2, n2 - 1);
            assert(step_at(segs, tr1, n2 - 1));
            assert(!unmeasurable_before(s.blocks, rva));
        }
    }
}

/// The sections that hold code are exactly the sections whose execute flag is
/// set, all of them, in the order of the section table.
pub proof fn lemma_code_sections_are_executable(s: Seq<PeSectionView>)
    ensures
        code_sections_of(s) == s.filter(|x: PeSectionView| x.header.characteristics & IMAGE_SCN_MEM_EXECUTE != 0),
    decreases s.len(),
{
    reveal(Seq::filter);
    if s.len() > 0 {
        lemma_code_sections_are_executable(s.drop_last());
    }
}

/// Each executable section of the image gives a code segment, and each code
/// segment comes from an executable section.
pub proof fn lemma_every_executable_section_is_code(pe: PeImageView, j: int)
    requires
        0 <= j < pe.sections.len(),
    ensures
        pe.sections[j].header.characteristics & IMAGE_SCN_MEM_EXECUTE != 0 ==> code_segments_of(pe).contains(
            segment_of(pe.sections[j]),
        ),
        forall|m: int|
            0 <= m < code_sections_of(pe.sections).len() ==> (#[trigger] code_sections_of(pe.sections)[m]).header.characteristics
                & IMAGE_SCN_MEM_EXECUTE != 0,
{
    let pred = |x: PeSectionView| x.header.characteristics & IMAGE_SCN_MEM_EXECUTE != 0;
    lemma_code_sections_are_executable(pe.sections);
    assert forall|m: int| 0 <= m < code_sections_of(pe.sections).len() implies (
    #[trigger] code_sections_of(pe.sections)[m]).header.characteristics & IMAGE_SCN_MEM_EXECUTE != 0 by {
        pe.sections.lemma_filter_pred(pred, m);
    }
    if pred(pe.sections[j]) {
        pe.sections.lemma_filter_contains(pred, j);
        let c = code_sections_of(pe.sections);
        assert(c.contains(pe.sections[j]));
        let m = choose|m: int| 0 <= m < c.len() && c[m] == pe.sections[j];
        assert(code_segments_of(pe)[m] == segment_of(pe.sections[j]));
    }
}

/// The number of direct calls among `insts`.
pub open spec fn direct_call_count(insts: Seq<InstView>) -> nat {
    insts.filter(|i: InstView| i.flow == FlowKind::Call).len()
}

/// Every entry for a call names the target of a direct call of `insts`, and
/// there is one for each direct call.
proof fn lemma_call_entries_exact(insts: Seq<InstView>)
    ensures
        call_entries(insts) == insts.filter(|i: InstView| i.flow == FlowKind::Call).map_values(
            |i: InstView| Entry { kind: EntryKind::Call, rva: i.near_branch_target as u32 },
        ),
        call_entries(insts).len() == direct_call_count(insts),
        forall|j: int|
            0 <= j < call_entries(insts).len() ==> {
                &&& (#[trigger] call_entries(insts)[j]).kind == EntryKind::Call
                &&& exists|i: int|
                    0 <= i < insts.len() && insts[i].flow == FlowKind::Call && call_entries(insts)[j].rva
                        == insts[i].near_branch_target as u32
            },
    decreases insts.len(),
{
    reveal(Seq::filter);
    if insts.len() > 0 {
        let rest = insts.drop_last();
        lemma_call_entries_exact(rest);
        let f = |i: InstView| Entry { kind: EntryKind::Call, rva: i.near_branch_target as u32 };
        let p = |i: InstView| i.flow == FlowKind::Call;
        if p(insts.last()) {
            assert(insts.filter(p) == rest.filter(p).push(insts.last()));
            assert(insts.filter(p).map_values(f) =~= rest.filter(p).map_values(f).push(f(insts.last())));
        } else {
            assert(insts.filter(p) == rest.filter(p));
        }
        assert forall|j: int| 0 <= j < call_entries(insts).len() implies {
            &&& (#[trigger] call_entries(insts)[j]).kind == EntryKind::Call
            &&& exists|i: int|
                0 <= i < insts.len() && insts[i].flow == FlowKind::Call && call_entries(insts)[j].rva
                    == insts[i].near_branch_target as u32
        } by {
            if j < call_entries(rest).len() {
                assert(call_entries(insts)[j] == call_entries(rest)[j]);
                let i = choose|i: int|
                    0 <= i < rest.len() && rest[i].flow == FlowKind::Call && call_entries(rest)[j].rva
                        == rest[i].near_branch_target as u32;
                assert(insts[i] == rest[i]);
            } else {
                assert(insts[insts.len() - 1] == insts.last());
            }
        }
    }
}

/// What exploring a block queues: one entry for each direct call in it,
/// naming the call's target; then, where its last instruction is a
/// conditional branch, the address after it and the branch target; where it
/// is a direct jump, the jump target; and nothing else. Indirect jumps,
/// indirect calls, returns and the rest queue nothing.
pub proof fn lemma_successor_entries(b: BlockView)
    ensures
        successor_entries(b) == b.insts.filter(|i: InstView| i.flow == FlowKind::Call).map_values(
            |i: InstView| Entry { kind: EntryKind::Call, rva: i.near_branch_target as u32 },
        ) + (if b.insts.len() == 0 {
            Seq::<Entry>::empty()
        } else if b.insts.last().flow == FlowKind::ConditionalBranch {
            seq![
                Entry { kind: EntryKind::FallThrough, rva: b.insts.last().next_ip as u32 },
                Entry { kind: EntryKind::Branch, rva: b.insts.last().near_branch_target as u32 },
            ]
        } else if b.insts.last().flow == FlowKind::UnconditionalBranch {
            seq![Entry { kind: EntryKind::Jmp, rva: b.insts.last().near_branch_target as u32 }]
        } else {
            Seq::<Entry>::empty()
        }),
        successor_entries(b).len() == direct_call_count(b.insts) + (if b.insts.len() == 0 {
            0int
        } else if b.insts.last().flow == FlowKind::ConditionalBranch {
            2int
        } else if b.insts.last().flow == FlowKind::UnconditionalBranch {
            1int
        } else {
            0int
        }),
        forall|j: int|
            0 <= j < successor_entries(b).len() ==> {
                let e = #[trigger] successor_entries(b)[j];
                let last = b.insts.last();
                ||| e.kind == EntryKind::Call && exists|i: int|
                    0 <= i < b.insts.len() && b.insts[i].flow == FlowKind::Call && e.rva
                        == b.insts[i].near_branch_target as u32
                ||| e.kind == EntryKind::FallThrough && last.flow == FlowKind::ConditionalBranch && e.rva
                    == last.next_ip as u32
                ||| e.kind == EntryKind::Branch && last.flow == FlowKind::ConditionalBranch && e.rva
                    == last.near_branch_target as u32
                ||| e.kind == EntryKind::Jmp && last.flow == FlowKind::UnconditionalBranch && e.rva
                    == last.near_branch_target as u32
            },
{
    lemma_call_entries_exact(b.insts);
    let calls = call_entries(b.insts);
    assert forall|j: int| 0 <= j < successor_entries(b).len() implies {
        let e = #[trigger] successor_entries(b)[j];
        let last = b.insts.last();
        ||| e.kind == EntryKind::Call && exists|i: int|
            0 <= i < b.insts.len() && b.insts[i].flow == FlowKind::Call && e.rva
                == b.insts[i].near_branch_target as u32
        ||| e.kind == EntryKind::FallThrough && last.flow == FlowKind::ConditionalBranch && e.rva
            == last.next_ip as u32
        ||| e.kind == EntryKind::Branch && last.flow == FlowKind::ConditionalBranch && e.rva
            == last.near_branch_target as u32
        ||| e.kind == EntryKind::Jmp && last.flow == FlowKind::UnconditionalBranch && e.rva
            == last.near_branch_target as u32
    } by {
        if j < calls.len() {
            assert(successor_entries(b)[j] == calls[j]);
        } else {
            assert(successor_entries(b)[j] == tail_entries(b.insts)[j - calls.len()]);
        }
    }
}

/// `first_segment` finds the first segment, from `from` on, that contains
/// `rva`: that segment contains it and none before it does; where it finds
/// none, no segment from `from` on contains `rva`.
pub proof fn lemma_first_segment(segs: Seq<SegmentView>, rva: u32, from: int)
    requires
        from >= 0,
    ensures
        first_segment(segs, rva, from) >= 0 ==> {
            &&& from <= first_segment(segs, rva, from) < segs.len()
            &&& segs[first_segment(segs, rva, from)].contains_rva(rva)
            &&& forall|j: int| from <= j < first_segment(segs, rva, from) ==> !(#[trigger] segs[j]).contains_rva(rva)
        },
        first_segment(segs, rva, from) < 0 ==> forall|j: int| from <= j < segs.len() ==> !(
        #[trigger] segs[j]).contains_rva(rva),
    decreases segs.len() - from,
{
    if from < segs.len() && !segs[from].contains_rva(rva) {
        lemma_first_segment(segs, rva, from + 1);
    }
}

/// The window that a linear sweep decodes from always holds 16 bytes, more
/// than the longest x86 instruction (15 bytes). After a read of code at
/// `ip`, it starts with the bytes that the code holds from `ip` on (as many as
/// the first segment that contains `ip` holds there, at most 16): where the
/// code holds at least 15 bytes from `ip`, the window holds the whole
/// instruction there.
pub proof fn lemma_window(segs: Seq<SegmentView>, ips: Seq<u32>, ip: u32)
    ensures
        window_after(segs, ips).len() == 16,
        ({
            let w = window_after(segs, ips.push(ip));
            let i = first_segment(segs, ip, 0);
            let n = code_read_len(segs, ip, 16);
            &&& 0 <= n <= 16
            &&& i < 0 ==> n == 0
            &&& i >= 0 ==> {
                let off = ip - segs[i].rva;
                &&& off < segs[i].data.len() ==> n == 16 || off + n == segs[i].data.len()
                &&& off >= segs[i].data.len() ==> n == 0
            }
            &&& n > 0 ==> {
                &&& 0 <= i < segs.len()
                &&& segs[i].rva <= ip
                &&& (ip - segs[i].rva) + n <= segs[i].data.len()
                &&& forall|j: int| 0 <= j < n ==> #[trigger] w[j] == segs[i].data[(ip - segs[i].rva) + j]
            }
        }),
    decreases ips.len(),
{
    if ips.len() > 0 {
        lemma_window(segs, ips.drop_last(), ips.last());
        lemma_first_segment(segs, ips.last(), 0);
    }
    lemma_window_push(segs, ips, ip);
    lemma_first_segment(segs, ip, 0);
    let w0 = window_after(segs, ips);
    let w = window_after(segs, ips.push(ip));
    let i = first_segment(segs, ip, 0);
    if i >= 0 {
        let n = segs[i].copy_len(ip, 16);
        if n > 0 {
            let off = ip - segs[i].rva;
            assert(w == segs[i].data.subrange(off, off + n) + w0.skip(n));
            assert forall|j: int| 0 <= j < n implies #[trigger] w[j] == segs[i].data[off + j] by {
                assert(w[j] == segs[i].data.subrange(off, off + n)[j]);
            }
        }
    }
}

} // verus!
