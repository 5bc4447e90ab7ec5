use vstd::prelude::*;
use std::collections::btree_map::Range;
use std::collections::{BTreeMap, HashSet, VecDeque};
use vstd::string::StringExecFns;

use crate::base_block::{first_at, BlockView, BB};
use crate::disassember::Disassemer;
use crate::image::{
    pe_image, PeImage, PeImageView, IMAGE_DOS_SIGNATURE, IMAGE_NT_HEADERS_SIGNATURE,
    IMAGE_NT_OPTIONAL_HDR32_MAGIC, IMAGE_NT_OPTIONAL_HDR64_MAGIC, IMAGE_SCN_MEM_EXECUTE,
};
use crate::exploration::{
    Entry, EntryKind, ExploreState, base_information, block_before, block_in_order,
    blocks_in_order, call_entries, code_sections_of, code_segments_of, exploration_start,
    explore_step, explores_to, fails_next, in_pending, inst_ips, known_entries,
    lemma_block_before, lemma_first_at_found, lemma_in_order_grow, lemma_in_order_pop,
    lemma_in_pending_appended, lemma_in_pending_extend, lemma_no_block_before,
    lemma_reached_pop, lemma_run_split, lemma_split_successors, lemma_sweep_done,
    lemma_sweep_push, lemma_trace_push, lemma_u32_set_bound, lemma_window_push, placed, reached,
    step_at, successor_entries, successors_reached, sweep_prefix, swept_block, tail_entries,
    unmeasurable_before, window_after, zero_window,
};
use crate::object::{Bit, Model, Object};
use crate::segment::{code_fill, code_read_len, first_segment, segment_of, CodeSegment, SegmentView};

verus! {

/// Why parsing an image failed.
#[derive(Debug, Clone, Copy, PartialEq, Eq, Structural)]
pub enum ParseError {
    /// pelite does not accept the bytes as a PE64 image.
    InvalidImage,
    /// The DOS header does not start with `MZ`.
    InvalidDosSignature,
    /// The NT headers do not start with `PE\0\0`.
    InvalidNtSignature,
    /// The optional header is neither that of a 32-bit nor of a 64-bit image.
    UnknownPeFormat,
    /// Exploring `rva`, the block at `start`, the last one that starts before
    /// it, has no size that can be computed: it is not complete, or its end
    /// does not fit in `usize`.
    IncompleteBlock { start: u32, rva: u32 },
}

impl ParseError {
    /// The message that reports the error.
    pub fn message(&self) -> (r: String)
        ensures
            r@ == match *self {
                ParseError::InvalidImage => "Failed to parse PE file"@,
                ParseError::InvalidDosSignature => "Invalid DOS signature"@,
                ParseError::InvalidNtSignature => "Invalid NT signature"@,
                ParseError::UnknownPeFormat => "Unknown PE format"@,
                ParseError::IncompleteBlock { .. } => "you're operating a not compete base block"@,
            },
    {
        match self {
            ParseError::InvalidImage => String::from_str("Failed to parse PE file"),
            ParseError::InvalidDosSignature => String::from_str("Invalid DOS signature"),
            ParseError::InvalidNtSignature => String::from_str("Invalid NT signature"),
            ParseError::UnknownPeFormat => String::from_str("Unknown PE format"),
            ParseError::IncompleteBlock { .. } => String::from_str("you're operating a not compete base block"),
        }
    }
}

/// The state of one exploration of an image's code: the decoder, the code
/// segments, the addresses already explored, the queue of places still to
/// explore, and the blocks found so far by start address.
pub struct ParserContext {
    disassember: Disassemer,
    code_sections: Vec<CodeSegment>,
    seen_rvas: HashSet<u32>,
    work_list: VecDeque<Entry>,
    bb_map: BTreeMap<u32, BB>,
}

impl ParserContext {
    /// The mode of the decoder, in bits.
    pub closed spec fn bitness(&self) -> u32 {
        self.disassember.bitness()
    }

    /// The code segments, in the order of the section table.
    pub closed spec fn segments(&self) -> Seq<SegmentView> {
        self.code_sections@.map_values(|s: CodeSegment| s@)
    }

    /// The addresses explored so far.
    pub closed spec fn seen(&self) -> Set<u32> {
        self.seen_rvas@
    }

    /// The places queued for exploration, front first.
    pub closed spec fn pending(&self) -> Seq<Entry> {
        self.work_list@
    }

    /// The blocks found so far, by start address.
    pub closed spec fn blocks(&self) -> Map<u32, BlockView> {
        self.bb_map@.map_values(|b: BB| b@)
    }

    /// The exploration is in order: the decoder reads 64-bit code, every block
    /// starts at its key, is a run and was explored, and every place that a
    /// block leads to was explored or is queued.
    pub open spec fn wf(&self) -> bool {
        &&& self.bitness() == 64
        &&& blocks_in_order(self.blocks(), self.seen(), self.pending(), None)
    }

    /// The moment of the exploration that the context is at.
    pub open spec fn state(&self) -> ExploreState {
        ExploreState { blocks: self.blocks(), seen: self.seen(), pending: self.pending() }
    }

    /// A context that has explored nothing, with a 64-bit decoder and no code segments.
    pub fn make() -> (r: ParserContext)
        ensures
            r.bitness() == 64,
            r.segments() == Seq::<SegmentView>::empty(),
            r.seen() == Set::<u32>::empty(),
            r.pending() == Seq::<Entry>::empty(),
            r.blocks() == Map::<u32, BlockView>::empty(),
    {
        let r = ParserContext {
            disassember: Disassemer::make(64),
            code_sections: Vec::new(),
            seen_rvas: HashSet::new(),
            work_list: VecDeque::new(),
            bb_map: BTreeMap::new(),
        };
        proof {
            assert(r.segments() =~= Seq::<SegmentView>::empty());
            assert(r.blocks() =~= Map::<u32, BlockView>::empty());
        }
        r
    }

    /// The blocks found so far, by start address.
    pub fn bb_map(&self) -> (r: &BTreeMap<u32, BB>)
        ensures
            r@.map_values(|b: BB| b@) == self.blocks(),
    {
        &self.bb_map
    }

    /// The addresses explored so far.
    pub fn seen_rvas(&self) -> (r: &HashSet<u32>)
        ensures
            r@ == self.seen(),
    {
        &self.seen_rvas
    }

    /// The places queued for exploration, front first.
    pub fn work_list(&self) -> (r: &VecDeque<Entry>)
        ensures
            r@ == self.pending(),
    {
        &self.work_list
    }

    /// The code segments.
    pub fn code_sections(&self) -> (r: &Vec<CodeSegment>)
        ensures
            r@.map_values(|s: CodeSegment| s@) == self.segments(),
    {
        &self.code_sections
    }

    /// Reads the code at `rva` into `buffer` from the first code segment that
    /// contains it, and says how many bytes it copied (none where no segment does).
    pub fn read_code_bytes(&self, rva: u32, buffer: &mut [u8]) -> (r: usize)
        ensures
            r == code_read_len(self.segments(), rva, old(buffer)@.len() as int),
            final(buffer)@ == code_fill(self.segments(), rva, old(buffer)@),
    {
        let ghost segs = self.segments();
        let n = self.code_sections.len();
        let mut i: usize = 0;
        while i < n
            invariant
                n == self.code_sections@.len(),
                segs == self.segments(),
                i <= n,
                first_segment(segs, rva, 0) == first_segment(segs, rva, i as int),
                buffer@ == old(buffer)@,
            decreases n - i,
        {
            if self.code_sections[i].contains_rva(rva) {
                return self.code_sections[i].read_into(rva, buffer);
            }
            i = i + 1;
        }
        0
    }
}

/// std's `btree_map::Range`, the iterator that `BTreeMap::range` hands back;
/// Verus sees nothing inside it (what it holds is `range_keys`).
#[verifier::external_type_specification]
#[verifier::external_body]
#[verifier::reject_recursive_types(K)]
#[verifier::reject_recursive_types(V)]
pub struct ExRange<'a, K, V>(Range<'a, K, V>);

/// The keys of the entries that a range of a block map still holds, in the
/// order in which it hands them out from the front.
pub uninterp spec fn range_keys(r: Range<'_, u32, BB>) -> Seq<u32>;

/// Calls std's `BTreeMap::range` with `..=rva`. std documents that the range
/// yields the entries whose keys lie in `..=rva`, in ascending order of keys.
/// Claimed: its keys are those of `map` that are at most `rva`, ascending.
#[verifier::external_body]
fn entries_up_to(map: &BTreeMap<u32, BB>, rva: u32) -> (r: Range<'_, u32, BB>)
    ensures
        forall|k: u32| range_keys(r).contains(k) <==> (map@.contains_key(k) && k <= rva),
        forall|i: int, j: int| 0 <= i < j < range_keys(r).len() ==> range_keys(r)[i] < range_keys(r)[j],
{
    map.range(..=rva)
}

/// Calls `DoubleEndedIterator::next_back` on the range, which hands out its
/// last entry, and keeps the key. Claimed: the key is the last of the range's
/// keys, which the range then no longer holds; nothing where it holds none.
#[verifier::external_body]
fn take_last_key(r: &mut Range<'_, u32, BB>) -> (k: Option<u32>)
    ensures
        range_keys(*old(r)).len() == 0 ==> k is None && range_keys(*final(r)).len() == 0,
        range_keys(*old(r)).len() > 0 ==> {
            &&& k == Some(range_keys(*old(r)).last())
            &&& range_keys(*final(r)) == range_keys(*old(r)).drop_last()
        },
{
    match r.next_back() {
        Some((k, _)) => Some(*k),
        None => None,
    }
}

/// The greatest key of `map` at or below `rva`, if any.
fn last_key_at_or_before(map: &BTreeMap<u32, BB>, rva: u32) -> (r: Option<u32>)
    ensures
        r matches Some(k) ==> {
            &&& map@.contains_key(k)
            &&& k <= rva
            &&& forall|k2: u32| #[trigger] map@.contains_key(k2) && k2 <= rva ==> k2 <= k
        },
        r is None ==> forall|k2: u32| #[trigger] map@.contains_key(k2) ==> k2 > rva,
{
    let mut range = entries_up_to(map, rva);
    let ghost keys = range_keys(range);
    let r = take_last_key(&mut range);
    proof {
        if keys.len() > 0 {
            let last = keys.last();
            assert(keys.contains(last));
            assert forall|k2: u32| #[trigger] map@.contains_key(k2) && k2 <= rva implies k2 <= last by {
                assert(keys.contains(k2));
                let i = choose|i: int| 0 <= i < keys.len() && keys[i] == k2;
                if i < keys.len() - 1 {
                    assert(keys[i] < keys[keys.len() - 1]);
                }
            }
        } else {
            assert forall|k2: u32| #[trigger] map@.contains_key(k2) implies k2 > rva by {
                if k2 <= rva {
                    assert(keys.contains(k2));
                }
            }
        }
    }
    r
}

/// Whether the size of `bb` can be computed (see `BlockView::measurable`).
fn block_is_measurable(bb: &BB) -> (r: bool)
    ensures
        r == bb@.measurable(),
{
    if !bb.is_complete() {
        return false;
    }
    match bb.last() {
        None => false,
        Some(last) => {
            let end = last.ip() as u128 + last.len() as u128;
            bb.rva() as u128 <= end && end <= usize::MAX as u128
        },
    }
}

/// The block that starts last at or before `rva`, with its start, where it
/// contains `rva` (as `BB::contains` decides it).
fn find_containing<'b>(ctx: &'b ParserContext, rva: u32) -> (r: Option<(u32, &'b BB)>)
    requires
        block_before(ctx.blocks(), rva) matches Some(s) ==> ctx.blocks()[s].measurable(),
    ensures
        r matches Some((s, bb)) ==> {
            &&& block_before(ctx.blocks(), rva) == Some(s)
            &&& bb@ == ctx.blocks()[s]
            &&& bb@.contains(rva)
        },
        r is None ==> !(block_before(ctx.blocks(), rva) is Some && ctx.blocks()[block_before(
            ctx.blocks(),
            rva,
        )->0].contains(rva)),
{
    match last_key_at_or_before(&ctx.bb_map, rva) {
        Some(start) => {
            proof {
                lemma_block_before(ctx.blocks(), rva, start);
            }
            match ctx.bb_map.get(&start) {
                Some(bb) => {
                    if bb.contains(rva) {
                        Some((start, bb))
                    } else {
                        None
                    }
                },
                None => None,
            }
        },
        None => {
            proof {
                lemma_no_block_before(ctx.blocks(), rva);
            }
            None
        },
    }
}

/// The places that exploring `bb` queues, in order: its direct calls, then
/// where control goes after it.
fn successors_of(bb: &BB) -> (r: Vec<Entry>)
    ensures
        r@ == successor_entries(bb@),
{
    let mut out: Vec<Entry> = Vec::new();
    let n = bb.inst_count();
    let mut i: usize = 0;
    while i < n
        invariant
            n == bb@.insts.len(),
            i <= n,
            out@ == call_entries(bb@.insts.take(i as int)),
        decreases n - i,
    {
        let inst = bb.inst(i);
        proof {
            assert(bb@.insts.take(i + 1).drop_last() =~= bb@.insts.take(i as int));
        }
        if inst.is_call() && !inst.is_indirct_call() {
            let target = match inst.get_branch_target() {
                Some(t) => t,
                None => 0,
            };
            out.push(Entry { kind: EntryKind::Call, rva: target as u32 });
        }
        i = i + 1;
    }
    proof {
        assert(bb@.insts.take(n as int) =~= bb@.insts);
    }
    let ghost calls = out@;
    if let Some(last) = bb.last() {
        if last.is_branch() {
            let target = match last.get_branch_target() {
                Some(t) => t,
                None => 0,
            };
            out.push(Entry { kind: EntryKind::FallThrough, rva: last.next_ip() as u32 });
            out.push(Entry { kind: EntryKind::Branch, rva: target as u32 });
        }
        if last.is_jmp() {
            let target = match last.get_branch_target() {
                Some(t) => t,
                None => 0,
            };
            out.push(Entry { kind: EntryKind::Jmp, rva: target as u32 });
        }
    }
    proof {
        assert(out@ =~= calls + tail_entries(bb@.insts));
    }
    out
}

/// A parser of a PE64 image: what it reads of the image, once, where pelite
/// accepts it.
pub struct PEParser {
    pub pe: PeImage,
}

impl PEParser {
    /// What the parser read of the image.
    pub open spec fn model(&self) -> PeImageView {
        self.pe@
    }

    /// A parser of `image`: reads its headers, sections and export table
    /// through pelite (see `PeImage::load`); fails where pelite does not
    /// accept the bytes as a PE64 image.
    pub fn make(image: &[u8]) -> (r: Result<PEParser, ParseError>)
        ensures
            r matches Ok(p) ==> p.model() == pe_image(image@) && p.model().wf(),
            r matches Err(e) ==> e == ParseError::InvalidImage,
    {
        match PeImage::load(image) {
            Some(pe) => Ok(PEParser { pe }),
            None => Err(ParseError::InvalidImage),
        }
    }

    /// Sets the model, word size, entry point and image base of `object` from
    /// the image's header fields; fails, changing nothing, where the
    /// optional-header magic is neither that of a 32-bit nor of a 64-bit image.
    fn parse_base_information(&self, object: &mut Object) -> (r: Result<(), ParseError>)
        ensures
            match base_information(self.model().headers) {
                Some(o) => r is Ok && *final(object) == o,
                None => r == Err::<(), ParseError>(ParseError::UnknownPeFormat) && *final(object) == *old(object),
            },
    {
        let headers = &self.pe.headers;
        if headers.optional_magic == IMAGE_NT_OPTIONAL_HDR32_MAGIC {
            object.model = Model::Win32;
            object.bit = Bit::Bit32;
        } else if headers.optional_magic == IMAGE_NT_OPTIONAL_HDR64_MAGIC {
            object.model = Model::Win64;
            object.bit = Bit::Bit64;
        } else {
            return Err(ParseError::UnknownPeFormat);
        }
        object.entry_point = headers.entry_point;
        object.imagebase = headers.image_base;
        Ok(())
    }

    /// The places to start exploring from: the entry point, then each function
    /// of the export table, in order, where the table was read.
    fn collect_known_entry(&self) -> (r: Vec<Entry>)
        ensures
            r@ == known_entries(self.model()),
    {
        let mut known: Vec<Entry> = Vec::new();
        known.push(Entry { kind: EntryKind::EntryPoint, rva: self.pe.headers.entry_point });
        let ghost ep = Entry { kind: EntryKind::EntryPoint, rva: self.pe.headers.entry_point };
        match &self.pe.exports {
            Some(functions) => {
                let n = functions.len();
                let mut i: usize = 0;
                while i < n
                    invariant
                        n == functions@.len(),
                        i <= n,
                        known@ == seq![ep] + functions@.take(i as int).map_values(
                            |r: u32| Entry { kind: EntryKind::ExportFunction, rva: r },
                        ),
                    decreases n - i,
                {
                    known.push(Entry { kind: EntryKind::ExportFunction, rva: functions[i] });
                    proof {
                        assert(functions@.take(i + 1) =~= functions@.take(i as int).push(functions@[i as int]));
                        assert(known@ =~= seq![ep] + functions@.take(i + 1).map_values(
                            |r: u32| Entry { kind: EntryKind::ExportFunction, rva: r },
                        ));
                    }
                    i = i + 1;
                }
                proof {
                    assert(functions@.take(n as int) =~= functions@);
                }
            },
            None => {
                proof {
                    assert(known@ =~= seq![ep] + Seq::<Entry>::empty());
                }
            },
        }
        known
    }

    /// Explores the code of the image: keeps the executable sections as code
    /// segments, queues the entry point and the exported functions, and
    /// explores queued places until none is left, each address once. Hands
    /// back the context, whose blocks then lead only to explored places. Fails
    /// only where an exploration step fails (see `ParseError::IncompleteBlock`).
    pub fn parse_functions(&self) -> (r: Result<ParserContext, ParseError>)
        ensures
            r matches Ok(ctx) ==> {
                &&& ctx.wf()
                &&& ctx.pending().len() == 0
                &&& ctx.segments() == code_segments_of(self.model())
                &&& explores_to(ctx.segments(), exploration_start(known_entries(self.model())), ctx.state())
                &&& forall|j: int|
                    0 <= j < known_entries(self.model()).len() ==> ctx.seen().contains(
                        #[trigger] known_entries(self.model())[j].rva,
                    )
            },
            r matches Err(e) ==> e is IncompleteBlock,
            r matches Err(ParseError::IncompleteBlock { start, rva }) ==> exists|s: ExploreState|
                #![trigger fails_next(s, start, rva)]
                {
                    &&& explores_to(
                        code_segments_of(self.model()),
                        exploration_start(known_entries(self.model())),
                        s,
                    )
                    &&& fails_next(s, start, rva)
                },
    {
        let mut ctx = ParserContext::make();
        let ghost views = self.pe.sections@.map_values(|x: crate::image::PeSection| x@);
        let mut segments: Vec<CodeSegment> = Vec::new();
        let n = self.pe.sections.len();
        let mut i: usize = 0;
        while i < n
            invariant
                n == self.pe.sections@.len(),
                views == self.pe.sections@.map_values(|x: crate::image::PeSection| x@),
                i <= n,
                segments@.len() == code_sections_of(views.take(i as int)).len(),
                forall|j: int|
                    0 <= j < segments@.len() ==> (#[trigger] segments@[j])@ == segment_of(
                        code_sections_of(views.take(i as int))[j],
                    ),
            decreases n - i,
        {
            proof {
                assert(views.take(i + 1).drop_last() =~= views.take(i as int));
                assert(views.take(i + 1).last() == views[i as int]);
            }
            if self.pe.sections[i].header.characteristics & IMAGE_SCN_MEM_EXECUTE != 0 {
                let seg = CodeSegment::make(&self.pe.sections[i]);
                segments.push(seg);
            }
            i = i + 1;
        }
        proof {
            assert(views.take(n as int) =~= views);
        }
        ctx.code_sections = segments;
        let ghost segs = ctx.segments();
        proof {
            assert(segs =~= code_segments_of(self.model()));
        }
        let known = self.collect_known_entry();
        let k = known.len();
        let mut i: usize = 0;
        while i < k
            invariant
                k == known@.len(),
                i <= k,
                ctx.pending() == known@.take(i as int),
                ctx.wf(),
                ctx.segments() == segs,
                ctx.blocks() == Map::<u32, BlockView>::empty(),
                ctx.seen() == Set::<u32>::empty(),
            decreases k - i,
        {
            ctx.work_list.push_back(known[i]);
            proof {
                assert(known@.take(i + 1) =~= known@.take(i as int).push(known@[i as int]));
            }
            i = i + 1;
        }
        proof {
            assert(known@.take(k as int) =~= known@);
            assert forall|j: int| 0 <= j < known@.len() implies reached(
                ctx.seen(),
                ctx.pending(),
                #[trigger] known@[j].rva,
            ) by {
                assert(ctx.pending()[j] == known@[j]);
            }
        }
        let ghost start = exploration_start(known@);
        let ghost mut trace: Seq<ExploreState> = seq![ctx.state()];
        proof {
            assert(ctx.state() == start);
        }
        while ctx.work_list.len() > 0
            invariant
                ctx.wf(),
                trace.len() >= 1,
                trace[0] == start,
                start == exploration_start(known@),
                trace.last() == ctx.state(),
                forall|i: int| 0 <= i < trace.len() - 1 ==> #[trigger] step_at(segs, trace, i),
                segs == code_segments_of(self.model()),
                known@ == known_entries(self.model()),
                ctx.segments() == segs,
                forall|j: int| 0 <= j < known@.len() ==> reached(ctx.seen(), ctx.pending(), #[trigger] known@[j].rva),
            ensures
                ctx.wf(),
                trace.len() >= 1,
                trace[0] == start,
                trace.last() == ctx.state(),
                forall|i: int| 0 <= i < trace.len() - 1 ==> #[trigger] step_at(segs, trace, i),
                ctx.segments() == segs,
                ctx.pending().len() == 0,
                forall|j: int| 0 <= j < known@.len() ==> reached(ctx.seen(), ctx.pending(), #[trigger] known@[j].rva),
            decreases 0x1_0000_0000 - ctx.seen().len(), ctx.pending().len(),
        {
            proof {
                lemma_u32_set_bound(ctx.seen());
            }
            let ghost pending = ctx.pending();
            let ghost seen = ctx.seen();
            let ghost before = ctx.state();
            let e = match ctx.work_list.pop_front() {
                Some(e) => e,
                None => {
                    break;
                },
            };
            if ctx.seen_rvas.contains(&e.rva) {
                proof {
                    lemma_in_order_pop(ctx.blocks(), seen, pending);
                    assert forall|j: int| 0 <= j < known@.len() implies reached(
                        ctx.seen(),
                        ctx.pending(),
                        #[trigger] known@[j].rva,
                    ) by {
                        lemma_reached_pop(seen, pending, known@[j].rva);
                    }
                    assert(explore_step(segs, before, ctx.state()));
                    lemma_trace_push(segs, trace, ctx.state());
                    trace = trace.push(ctx.state());
                }
                continue;
            }
            ctx.seen_rvas.insert(e.rva);
            proof {
                lemma_u32_set_bound(ctx.seen());
                lemma_in_order_grow(ctx.blocks(), seen, pending, ctx.seen(), Seq::empty(), None);
                assert(pending + Seq::<Entry>::empty() =~= pending);
                lemma_in_order_pop(ctx.blocks(), ctx.seen(), pending);
                assert forall|j: int| 0 <= j < known@.len() implies reached(
                    ctx.seen(),
                    ctx.pending(),
                    #[trigger] known@[j].rva,
                ) by {
                    let t = known@[j].rva;
                    if !seen.contains(t) {
                        assert(in_pending(pending, t));
                    }
                    lemma_reached_pop(ctx.seen(), pending, t);
                }
            }
            let ghost popped = ctx.pending();
            match self.walk_entry(&mut ctx, e.rva) {
                Err(err) => {
                    proof {
                        assert(fails_next(before, block_before(before.blocks, e.rva)->0, e.rva));
                        assert(trace[0] == start);
                        assert(explores_to(segs, start, before));
                        assert(start == exploration_start(known_entries(self.model())));
                        assert(err == ParseError::IncompleteBlock {
                            start: block_before(before.blocks, e.rva)->0,
                            rva: e.rva,
                        });
                        assert(explores_to(
                            code_segments_of(self.model()),
                            exploration_start(known_entries(self.model())),
                            before,
                        ) && fails_next(before, block_before(before.blocks, e.rva)->0, e.rva));
                        if let ParseError::IncompleteBlock { start: at, rva } = err {
                            assert(exists|s: ExploreState|
                                #![trigger fails_next(s, at, rva)]
                                {
                                    &&& explores_to(
                                        code_segments_of(self.model()),
                                        exploration_start(known_entries(self.model())),
                                        s,
                                    )
                                    &&& fails_next(s, at, rva)
                                });
                        }
                    }
                    return Err(err);
                },
                Ok(()) => {},
            }
            proof {
                assert(explore_step(segs, before, ctx.state()));
                lemma_trace_push(segs, trace, ctx.state());
                trace = trace.push(ctx.state());
                assert forall|j: int| 0 <= j < known@.len() implies reached(
                    ctx.seen(),
                    ctx.pending(),
                    #[trigger] known@[j].rva,
                ) by {
                    let t = known@[j].rva;
                    if !ctx.seen().contains(t) {
                        lemma_in_pending_extend(popped, ctx.pending().subrange(popped.len() as int, ctx.pending().len() as int), t);
                        assert(popped + ctx.pending().subrange(popped.len() as int, ctx.pending().len() as int) =~= ctx.pending());
                    }
                }
            }
        }
        proof {
            assert forall|j: int| 0 <= j < known@.len() implies ctx.seen().contains(#[trigger] known@[j].rva) by {
                assert(reached(ctx.seen(), ctx.pending(), known@[j].rva));
            }
            assert(trace[0] == start);
            assert(explores_to(segs, start, ctx.state()));
        }
        Ok(ctx)
    }

    /// Parses the image: checks its signatures, sets `object` from its header
    /// fields, and explores its code. Fails where a signature is wrong or the
    /// format is neither 32- nor 64-bit (those leave `object` as it was), or
    /// where exploration fails.
    pub fn parse(&self, object: &mut Object) -> (r: Result<(), ParseError>)
        ensures
            ({
                let pe = self.model();
                let h = pe.headers;
                let segs = code_segments_of(pe);
                let start = exploration_start(known_entries(pe));
                let dos_ok = h.dos_magic == IMAGE_DOS_SIGNATURE;
                let nt_ok = h.nt_signature == IMAGE_NT_HEADERS_SIGNATURE;
                &&& (r == Err::<(), ParseError>(ParseError::InvalidDosSignature)) <==> !dos_ok
                &&& (r == Err::<(), ParseError>(ParseError::InvalidNtSignature)) <==> dos_ok && !nt_ok
                &&& (r == Err::<(), ParseError>(ParseError::UnknownPeFormat)) <==> dos_ok && nt_ok
                    && base_information(h) is None
                &&& !(dos_ok && nt_ok && base_information(h) is Some) ==> *final(object) == *old(object)
                &&& dos_ok && nt_ok && base_information(h) is Some ==> {
                    &&& Some(*final(object)) == base_information(h)
                    &&& r is Ok || r matches Err(ParseError::IncompleteBlock { .. })
                }
                &&& r is Ok ==> exists|fin: ExploreState|
                    #![trigger explores_to(segs, start, fin)]
                    explores_to(segs, start, fin) && fin.pending.len() == 0
                &&& r matches Err(ParseError::IncompleteBlock { start: at, rva }) ==> exists|s: ExploreState|
                    #![trigger fails_next(s, at, rva)]
                    explores_to(segs, start, s) && fails_next(s, at, rva)
            }),
    {
        let headers = &self.pe.headers;
        if headers.dos_magic != IMAGE_DOS_SIGNATURE {
            return Err(ParseError::InvalidDosSignature);
        }
        if headers.nt_signature != IMAGE_NT_HEADERS_SIGNATURE {
            return Err(ParseError::InvalidNtSignature);
        }
        match self.parse_base_information(object) {
            Err(e) => {
                return Err(e);
            },
            Ok(()) => {},
        }
        match self.parse_functions() {
            Ok(ctx) => {
                proof {
                    assert(explores_to(
                        code_segments_of(self.model()),
                        exploration_start(known_entries(self.model())),
                        ctx.state(),
                    ));
                }
                Ok(())
            },
            Err(e) => Err(e),
        }
    }

    /// Cuts the block at `start` in two at `rva` (see `BB::split_at`), and
    /// files the second part under `rva`.
    fn split_bb(&self, ctx: &mut ParserContext, start: u32, rva: u32)
        requires
            old(ctx).blocks().contains_key(start),
            old(ctx).blocks()[start].measurable(),
        ensures
            final(ctx).bitness() == old(ctx).bitness(),
            final(ctx).segments() == old(ctx).segments(),
            final(ctx).seen() == old(ctx).seen(),
            final(ctx).pending() == old(ctx).pending(),
            ({
                let b = old(ctx).blocks()[start];
                let k = first_at(b.insts, rva, 0);
                if b.spans(rva) && k >= 0 {
                    final(ctx).blocks() == old(ctx).blocks().insert(
                        start,
                        BlockView { insts: b.insts.take(k), ..b },
                    ).insert(rva, BlockView { rva: rva, insts: b.insts.skip(k), complete: true })
                } else {
                    final(ctx).blocks() == old(ctx).blocks()
                }
            }),
    {
        let mut bb = match ctx.bb_map.remove(&start) {
            Some(b) => b,
            None => {
                return ;
            },
        };
        proof {
            assert(bb@ == old(ctx).blocks()[start]);
        }
        let split = bb.split_at(rva);
        ctx.bb_map.insert(start, bb);
        match split {
            Some(new_bb) => {
                ctx.bb_map.insert(rva, new_bb);
                proof {
                    let b = old(ctx).blocks()[start];
                    let k = first_at(b.insts, rva, 0);
                    assert(ctx.blocks() =~= old(ctx).blocks().insert(
                        start,
                        BlockView { insts: b.insts.take(k), ..b },
                    ).insert(rva, BlockView { rva: rva, insts: b.insts.skip(k), complete: true }));
                }
            },
            None => {
                proof {
                    assert(ctx.blocks() =~= old(ctx).blocks());
                }
            },
        }
    }

    /// The block at `rva`: the one that starts there; else the second part of
    /// the block that contains `rva`, cut there; else a block swept from `rva`.
    /// Says whether it made a new block. There is none where the containing
    /// block has no instruction at `rva`, or no code can be read at `rva`. It
    /// fails where the block before `rva` has no size that can be computed.
    fn get_or_make_bb<'b>(&self, ctx: &'b mut ParserContext, rva: u32) -> (r: Result<
        Option<(bool, &'b BB)>,
        ParseError,
    >)
        requires
            old(ctx).wf(),
            old(ctx).seen().contains(rva),
        ensures
            final(ctx).bitness() == old(ctx).bitness(),
            final(ctx).segments() == old(ctx).segments(),
            final(ctx).seen() == old(ctx).seen(),
            final(ctx).pending() == old(ctx).pending(),
            r is Err <==> unmeasurable_before(old(ctx).blocks(), rva),
            r matches Err(e) ==> {
                &&& e == ParseError::IncompleteBlock {
                    start: block_before(old(ctx).blocks(), rva)->0,
                    rva: rva,
                }
                &&& final(ctx).blocks() == old(ctx).blocks()
            },
            r is Ok ==> {
                &&& placed(old(ctx).blocks(), old(ctx).segments(), rva, final(ctx).blocks())
                &&& blocks_in_order(final(ctx).blocks(), final(ctx).seen(), final(ctx).pending(), Some(rva))
            },
            r matches Ok(Some((created, bb))) ==> {
                &&& final(ctx).blocks().contains_key(rva)
                &&& bb@ == final(ctx).blocks()[rva]
                &&& created == !(old(ctx).blocks().contains_key(rva) || (block_before(
                    old(ctx).blocks(),
                    rva,
                ) is Some && old(ctx).blocks()[block_before(old(ctx).blocks(), rva)->0].contains(rva)))
            },
            r matches Ok(None) ==> !final(ctx).blocks().contains_key(rva),
    {
        let ghost old_blocks = ctx.blocks();
        if ctx.bb_map.contains_key(&rva) {
            return match ctx.bb_map.get(&rva) {
                Some(bb) => Ok(Some((false, bb))),
                None => Ok(None),
            };
        }
        match last_key_at_or_before(&ctx.bb_map, rva) {
            Some(start) => {
                proof {
                    lemma_block_before(ctx.blocks(), rva, start);
                }
                match ctx.bb_map.get(&start) {
                    Some(bb) => {
                        if !block_is_measurable(bb) {
                            return Err(ParseError::IncompleteBlock { start, rva });
                        }
                    },
                    None => {},
                }
            },
            None => {
                proof {
                    lemma_no_block_before(ctx.blocks(), rva);
                }
            },
        }
        let found = match find_containing(ctx, rva) {
            Some((start, _)) => Some(start),
            None => None,
        };
        if let Some(start_rva) = found {
            self.split_bb(ctx, start_rva, rva);
            proof {
                let b = old_blocks[start_rva];
                let k = first_at(b.insts, rva, 0);
                if b.spans(rva) && k >= 0 {
                    lemma_first_at_found(b.insts, rva, 0);
                    assert(b.insts[0].ip == start_rva);
                    assert(k > 0);
                    lemma_run_split(b, rva, k);
                    lemma_split_successors(b, k, ctx.seen(), ctx.pending());
                    assert forall|key: u32| #[trigger] ctx.blocks().contains_key(key) implies {
                        &&& block_in_order(ctx.blocks(), ctx.seen(), key)
                        &&& (Some(rva) != Some(key) ==> successors_reached(
                            ctx.blocks()[key],
                            ctx.seen(),
                            ctx.pending(),
                        ))
                    } by {
                        if key != rva && key != start_rva {
                            assert(old_blocks.contains_key(key));
                        }
                    }
                } else {
                    assert(ctx.blocks() == old_blocks);
                }
            }
            return Ok(match ctx.bb_map.get(&rva) {
                Some(bb) => Some((false, bb)),
                None => None,
            });
        }
        match self.make_bb(ctx, rva) {
            Some(bb) => {
                ctx.bb_map.insert(rva, bb);
                proof {
                    assert(ctx.blocks() =~= old_blocks.insert(rva, ctx.blocks()[rva]));
                    assert forall|key: u32| #[trigger] ctx.blocks().contains_key(key) implies {
                        &&& block_in_order(ctx.blocks(), ctx.seen(), key)
                        &&& (Some(rva) != Some(key) ==> successors_reached(
                            ctx.blocks()[key],
                            ctx.seen(),
                            ctx.pending(),
                        ))
                    } by {
                        if key != rva {
                            assert(old_blocks.contains_key(key));
                        }
                    }
                }
                Ok(match ctx.bb_map.get(&rva) {
                    Some(b) => Some((true, b)),
                    None => None,
                })
            },
            None => Ok(None),
        }
    }

    /// Explores `rva`: finds or makes the block there (see `get_or_make_bb`)
    /// and queues the places it leads to.
    fn walk_entry(&self, ctx: &mut ParserContext, rva: u32) -> (r: Result<(), ParseError>)
        requires
            old(ctx).wf(),
            old(ctx).seen().contains(rva),
        ensures
            final(ctx).bitness() == old(ctx).bitness(),
            final(ctx).segments() == old(ctx).segments(),
            final(ctx).seen() == old(ctx).seen(),
            r is Err <==> unmeasurable_before(old(ctx).blocks(), rva),
            r matches Err(e) ==> {
                &&& e == ParseError::IncompleteBlock {
                    start: block_before(old(ctx).blocks(), rva)->0,
                    rva: rva,
                }
                &&& final(ctx).blocks() == old(ctx).blocks()
                &&& final(ctx).pending() == old(ctx).pending()
            },
            r is Ok ==> {
                &&& placed(old(ctx).blocks(), old(ctx).segments(), rva, final(ctx).blocks())
                &&& final(ctx).pending() == old(ctx).pending() + (if final(ctx).blocks().contains_key(
                    rva,
                ) {
                    successor_entries(final(ctx).blocks()[rva])
                } else {
                    Seq::empty()
                })
                &&& final(ctx).wf()
            },
    {
        let found = self.get_or_make_bb(ctx, rva);
        let successors = match found {
            Err(e) => {
                return Err(e);
            },
            Ok(None) => {
                proof {
                    assert(ctx.pending() + Seq::<Entry>::empty() =~= ctx.pending());
                    assert forall|key: u32| #[trigger] ctx.blocks().contains_key(key) implies {
                        &&& block_in_order(ctx.blocks(), ctx.seen(), key)
                        &&& successors_reached(ctx.blocks()[key], ctx.seen(), ctx.pending())
                    } by {
                        assert(key != rva);
                    }
                }
                return Ok(());
            },
            Ok(Some((_created, bb))) => successors_of(bb),
        };
        let ghost before = ctx.pending();
        let ghost blocks = ctx.blocks();
        let n = successors.len();
        let mut i: usize = 0;
        while i < n
            invariant
                n == successors@.len(),
                i <= n,
                ctx.pending() == before + successors@.take(i as int),
                ctx.bitness() == old(ctx).bitness(),
                ctx.segments() == old(ctx).segments(),
                ctx.seen() == old(ctx).seen(),
                ctx.blocks() == blocks,
            decreases n - i,
        {
            ctx.work_list.push_back(successors[i]);
            proof {
                assert(successors@.take(i + 1) =~= successors@.take(i as int).push(successors@[i as int]));
            }
            i = i + 1;
        }
        proof {
            assert(successors@.take(n as int) =~= successors@);
            lemma_in_order_grow(blocks, ctx.seen(), before, ctx.seen(), successors@, Some(rva));
            assert forall|j: int| 0 <= j < successor_entries(blocks[rva]).len() implies reached(
                ctx.seen(),
                ctx.pending(),
                #[trigger] successor_entries(blocks[rva])[j].rva,
            ) by {
                lemma_in_pending_appended(before, successors@, j);
            }
        }
        Ok(())
    }

    /// Decodes the block that starts at `rva`: instruction after instruction,
    /// until one ends the block or no more code can be read. There is none
    /// where no code can be read at `rva`.
    fn make_bb(&self, ctx: &mut ParserContext, rva: u32) -> (r: Option<BB>)
        requires
            old(ctx).bitness() == 64,
        ensures
            *final(ctx) == *old(ctx),
            r is None <==> code_read_len(old(ctx).segments(), rva, 16) == 0,
            r matches Some(bb) ==> swept_block(old(ctx).segments(), 64, rva, bb@),
            r matches Some(bb) ==> bb@.is_run(),
    {
        let ghost segs = ctx.segments();
        let mut buffer: [u8; 16] = [0; 16];
        let mut ip = rva;
        proof {
            assert(buffer@ =~= zero_window());
        }
        let read_bytes = ctx.read_code_bytes(ip, &mut buffer);
        if read_bytes == 0 {
            return None;
        }
        let mut bb = BB::make(rva);
        proof {
            assert(inst_ips(bb@.insts).push(ip) =~= seq![ip]);
            lemma_window_push(segs, Seq::empty(), ip);
            assert(Seq::<u32>::empty().push(ip) =~= seq![ip]);
        }
        loop
            invariant_except_break
                ctx.bitness() == 64,
                segs == ctx.segments(),
                bb@.rva == rva,
                !bb@.complete,
                buffer@.len() == 16,
                buffer@ == window_after(segs, inst_ips(bb@.insts).push(ip)),
                code_read_len(segs, ip, 16) > 0,
                rva <= ip,
                bb@.insts.len() == 0 ==> ip == rva,
                bb@.insts.len() > 0 ==> ip == bb@.insts.last().ip + bb@.insts.last().len,
                bb@.insts.len() > 0 ==> bb@.insts[0].ip == rva,
                sweep_prefix(segs, rva, bb@.insts),
            ensures
                segs == ctx.segments(),
                swept_block(segs, 64, rva, bb@),
                bb@.is_run(),
            decreases u32::MAX - ip,
        {
            let ghost old_insts = bb@.insts;
            let decoded = ctx.disassember.decode_one(&buffer, ip as u64);
            match decoded {
                None => {
                    break;
                },
                Some(inst) => {
                    let inst = bb.add_inst(inst);
                    let terminal = inst.is_bb_terminal();
                    let len = inst.len();
                    proof {
                        assert(bb@.insts.drop_last() =~= old_insts);
                        assert(inst_ips(bb@.insts) =~= inst_ips(old_insts).push(ip));
                    }
                    if terminal {
                        bb.set_complete();
                        proof {
                            lemma_sweep_done(segs, rva, bb@);
                        }
                        break;
                    }
                    let next = ip as u64 + len as u64;
                    if next > u32::MAX as u64 {
                        proof {
                            lemma_sweep_done(segs, rva, bb@);
                        }
                        break;
                    }
                    proof {
                        lemma_sweep_push(segs, rva, old_insts, bb@.insts.last(), ip);
                    }
                    ip = next as u32;
                    if ctx.read_code_bytes(ip, &mut buffer) == 0 {
                        proof {
                            lemma_sweep_done(segs, rva, bb@);
                        }
                        break;
                    }
                    proof {
                        lemma_window_push(segs, inst_ips(bb@.insts), ip);
                    }
                },
            }
        }
        Some(bb)
    }
}

} // verus!
