use vstd::prelude::*;

use crate::disassember::{inst_text, InstView, MyInst};
use crate::text::{
    decimal_text, decimal_value, hex_text, hex_value, lemma_decimal_text, lemma_hex_text, push_decimal,
    push_hex, push_str,
};
use vstd::std_specs::iter::IteratorSpec;

verus! {

/// The model of a basic block: its start address, its instructions in order,
/// and whether it was closed by an instruction that ends a block.
pub struct BlockView {
    pub rva: u32,
    pub insts: Seq<InstView>,
    pub complete: bool,
}

/// Whether `inst` sits at `rva` once its address is cut to 32 bits.
pub open spec fn starts_at(inst: InstView, rva: u32) -> bool {
    inst.ip as u32 == rva
}

/// The first index, from `from` on, of an instruction of `insts` at `rva`,
/// or -1 where there is none.
pub open spec fn first_at(insts: Seq<InstView>, rva: u32, from: int) -> int
    decreases insts.len() - from,
{
    if from < 0 || from >= insts.len() {
        -1
    } else if starts_at(insts[from], rva) {
        from
    } else {
        first_at(insts, rva, from + 1)
    }
}

/// Instruction `k` of `insts` starts right where instruction `k - 1` ends,
/// and the latter does not end a block.
pub open spec fn follows_on(insts: Seq<InstView>, k: int) -> bool {
    &&& insts[k].ip == insts[k - 1].ip + insts[k - 1].len
    &&& !insts[k - 1].flow.ends_block()
}

impl BlockView {
    /// The address right after the last instruction, without wrapping.
    pub open spec fn end(self) -> int {
        let last = self.insts.last();
        last.ip + last.len
    }

    /// The block is a run: well-formed instructions, each placed right after
    /// the one before from the block's start on, all within the 32-bit space,
    /// none but the last one that ends a block.
    pub open spec fn is_run(self) -> bool {
        let n = self.insts.len();
        &&& n > 0
        &&& self.insts[0].ip == self.rva
        &&& forall|k: int|
            0 <= k < n ==> (#[trigger] self.insts[k]).wf() && self.rva <= self.insts[k].ip <= u32::MAX
        &&& forall|k: int| 0 < k < n ==> #[trigger] follows_on(self.insts, k)
    }

    /// The number of bytes from the start of the block to the end of its last instruction.
    pub open spec fn size(self) -> int {
        self.end() - self.rva
    }

    /// The size of the block can be computed without a panic or an overflow:
    /// the block is complete and not empty, and its end is at or after its
    /// start and fits in `usize`.
    pub open spec fn measurable(self) -> bool {
        &&& self.complete
        &&& self.insts.len() > 0
        &&& self.rva <= self.end()
        &&& self.end() <= usize::MAX
    }

    /// `rva` lies in the block as `BB::contains` decides it: at or after the
    /// start and below the block's size cut to 32 bits.
    pub open spec fn contains(self, rva: u32) -> bool {
        rva >= self.rva && rva < (self.size() as u32)
    }

    /// `rva` lies between the start of the block and its end (the size cut to 32 bits).
    pub open spec fn spans(self, rva: u32) -> bool {
        self.rva <= rva && rva < self.rva + (self.size() as u32)
    }
}

/// The lines that show `insts`, each indented by two spaces.
pub open spec fn insts_text(insts: Seq<InstView>) -> Seq<char>
    decreases insts.len(),
{
    if insts.len() == 0 {
        Seq::empty()
    } else {
        insts_text(insts.drop_last()) + "  "@ + inst_text(insts.last())
    }
}

/// The text that shows `b`: a header line with its start address in
/// upper-case hexadecimal and its number of instructions, then a line for
/// each instruction.
pub open spec fn block_text(b: BlockView) -> Seq<char> {
    "BB at RVA: 0x"@ + hex_text(b.rva as nat) + ", 指令数: "@ + decimal_text(b.insts.len()) + "\n"@
        + insts_text(b.insts)
}

/// The text of a block is its header line and then the lines of its
/// instructions. In the header, after `BB at RVA: 0x`, stands the start of the
/// block in upper-case hexadecimal, and after `, 指令数: ` the number of its
/// instructions in base ten: digits without a leading zero that, read in
/// base sixteen and base ten, give the start and the count.
pub proof fn lemma_block_text_count(b: BlockView)
    ensures
        exists|h: Seq<char>, d: Seq<char>|
            #![trigger hex_value(h), decimal_value(d)]
            {
                &&& block_text(b) == "BB at RVA: 0x"@ + h + ", 指令数: "@ + d + "\n"@ + insts_text(b.insts)
                &&& h.len() >= 1
                &&& forall|i: int| 0 <= i < h.len() ==> ('0' <= #[trigger] h[i] <= '9' || 'A' <= h[i] <= 'F')
                &&& h[0] == '0' ==> b.rva == 0
                &&& hex_value(h) == b.rva
                &&& d.len() >= 1
                &&& forall|i: int| 0 <= i < d.len() ==> '0' <= #[trigger] d[i] <= '9'
                &&& d[0] == '0' ==> b.insts.len() == 0
                &&& decimal_value(d) == b.insts.len()
            },
{
    lemma_decimal_text(b.insts.len());
    lemma_hex_text(b.rva as nat);
    let d = decimal_text(b.insts.len());
    let h = hex_text(b.rva as nat);
    assert(decimal_value(d) == b.insts.len() && hex_value(h) == b.rva);
}

/// A basic block: a run of instructions that control enters at the first.
pub struct BB {
    rva: u32,
    insts: Vec<MyInst>,
    is_complete: bool,
}

impl View for BB {
    type V = BlockView;

    closed spec fn view(&self) -> BlockView {
        BlockView {
            rva: self.rva,
            insts: self.insts@.map_values(|i: MyInst| i@),
            complete: self.is_complete,
        }
    }
}

impl BB {
    /// An empty, open block at `rva`.
    pub fn make(rva: u32) -> (r: BB)
        ensures
            r@ == (BlockView { rva: rva, insts: Seq::empty(), complete: false }),
    {
        let r = BB { rva, insts: Vec::new(), is_complete: false };
        assert(r@.insts =~= Seq::<InstView>::empty());
        r
    }

    /// The start address of the block.
    pub fn rva(&self) -> (r: u32)
        ensures
            r == self@.rva,
    {
        self.rva
    }

    /// The last instruction of the block, if it has any.
    pub fn last(&self) -> (r: Option<&MyInst>)
        ensures
            r is None <==> self@.insts.len() == 0,
            r matches Some(i) ==> i@ == self@.insts.last(),
    {
        let n = self.insts.len();
        if n == 0 {
            None
        } else {
            Some(&self.insts[n - 1])
        }
    }

    /// Appends `inst` to the block and hands it back.
    pub fn add_inst(&mut self, inst: MyInst) -> (r: &MyInst)
        ensures
            final(self)@ == (BlockView { insts: old(self)@.insts.push(inst@), ..old(self)@ }),
            r@ == inst@,
    {
        self.insts.push(inst);
        proof {
            assert(self@.insts =~= old(self)@.insts.push(inst@));
        }
        let n = self.insts.len();
        &self.insts[n - 1]
    }

    /// Marks the block as closed.
    pub fn set_complete(&mut self)
        ensures
            final(self)@ == (BlockView { complete: true, ..old(self)@ }),
    {
        self.is_complete = true
    }

    pub fn is_complete(&self) -> (r: bool)
        ensures
            r == self@.complete,
    {
        self.is_complete
    }

    /// The number of instructions of the block.
    pub fn inst_count(&self) -> (r: usize)
        ensures
            r == self@.insts.len(),
    {
        self.insts.len()
    }

    /// The `k`-th instruction of the block.
    pub fn inst(&self, k: usize) -> (r: &MyInst)
        requires
            k < self@.insts.len(),
        ensures
            r@ == self@.insts[k as int],
    {
        &self.insts[k]
    }

    /// The instructions of the block, in order.
    pub fn iter(&self) -> (r: std::slice::Iter<'_, MyInst>)
        ensures
            r.remaining().len() == self@.insts.len(),
            forall|k: int| 0 <= k < self@.insts.len() ==> (#[trigger] r.remaining()[k])@ == self@.insts[k],
    {
        let r = self.insts.as_slice().iter();
        proof {
            broadcast use vstd::std_specs::slice::axiom_spec_slice_iter;
        }
        r
    }

    /// The text that shows the block (see `block_text`).
    pub fn to_string(&self) -> (r: String)
        ensures
            r@ == block_text(self@),
    {
        let mut out = String::new();
        push_str(&mut out, "BB at RVA: 0x");
        push_hex(&mut out, self.rva as u64);
        push_str(&mut out, ", 指令数: ");
        push_decimal(&mut out, self.insts.len() as u64);
        push_str(&mut out, "\n");
        let ghost head = out@;
        let n = self.insts.len();
        let mut i: usize = 0;
        while i < n
            invariant
                n == self@.insts.len(),
                i <= n,
                out@ == head + insts_text(self@.insts.take(i as int)),
            decreases n - i,
        {
            push_str(&mut out, "  ");
            let line = self.insts[i].to_string();
            push_str(&mut out, line.as_str());
            proof {
                assert(self@.insts.take(i + 1).drop_last() =~= self@.insts.take(i as int));
                assert(self@.insts.take(i + 1).last() == self@.insts[i as int]);
                assert(out@ =~= head + insts_text(self@.insts.take(i + 1)));
            }
            i = i + 1;
        }
        proof {
            assert(self@.insts.take(n as int) =~= self@.insts);
            assert(out@ =~= block_text(self@));
        }
        out
    }

    /// The number of bytes from the start of the block to the end of its last instruction.
    pub fn size(&self) -> (r: usize)
        requires
            self@.measurable(),
        ensures
            r == self@.size(),
    {
        let n = self.insts.len();
        let last = &self.insts[n - 1];
        last.ip() as usize + last.len() - self.rva as usize
    }

    /// Whether `rva` is at or after the start and below the block's size (cut to 32 bits).
    pub fn contains(&self, rva: u32) -> (r: bool)
        requires
            self@.measurable(),
        ensures
            r == self@.contains(rva),
    {
        rva >= self.rva() && rva < self.size() as u32
    }

    /// Cuts the block before its first instruction at `rva`, where `rva` lies
    /// between its start and its end. The instructions from there on move to a
    /// new, complete block at `rva`; this block keeps the ones before. Where
    /// `rva` is out of that range or no instruction starts there, nothing changes.
    pub fn split_at(&mut self, rva: u32) -> (r: Option<BB>)
        requires
            old(self)@.rva <= rva ==> old(self)@.measurable(),
        ensures
            ({
                let k = first_at(old(self)@.insts, rva, 0);
                match r {
                    Some(new_bb) => {
                        &&& old(self)@.spans(rva)
                        &&& 0 <= k
                        &&& final(self)@ == (BlockView { insts: old(self)@.insts.take(k), ..old(self)@ })
                        &&& new_bb@ == (BlockView { rva: rva, insts: old(self)@.insts.skip(k), complete: true })
                        &&& final(self)@.insts + new_bb@.insts == old(self)@.insts
                    },
                    None => {
                        &&& !old(self)@.spans(rva) || k < 0
                        &&& final(self)@ == old(self)@
                    },
                }
            }),
    {
        if self.rva() <= rva && (rva as u64) < self.rva() as u64 + (self.size() as u32) as u64 {
            let mut new_bb = BB::make(rva);
            let n = self.insts.len();
            let mut idx: usize = 0;
            while idx < n
                invariant
                    n == self@.insts.len(),
                    idx <= n,
                    first_at(self@.insts, rva, 0) == first_at(self@.insts, rva, idx as int),
                ensures
                    idx <= n,
                    first_at(self@.insts, rva, 0) == first_at(self@.insts, rva, idx as int),
                    idx < n ==> starts_at(self@.insts[idx as int], rva),
                decreases n - idx,
            {
                if self.insts[idx].ip() as u32 == rva {
                    break;
                }
                idx = idx + 1;
            }
            if idx == n {
                return None;
            }
            let ghost before = self@.insts;
            new_bb.insts = self.insts.split_off(idx);
            new_bb.set_complete();
            proof {
                assert(self@.insts =~= before.take(idx as int));
                assert(new_bb@.insts =~= before.skip(idx as int));
                assert(self@.insts + new_bb@.insts =~= before);
            }
            return Some(new_bb);
        }
        None
    }
}

} // verus!
