use vstd::prelude::*;
use vstd::slice::slice_to_vec;
use iced_x86::{Decoder, DecoderOptions, Formatter, IntelFormatter};

use crate::text::{hex_text, push_char, push_hex, push_str};

verus! {

/// The widths, in bits, that the x86 decoder accepts.
pub open spec fn valid_bitness(bitness: u32) -> bool {
    bitness == 16 || bitness == 32 || bitness == 64
}

/// How control leaves an instruction. The variants are those of iced's
/// `FlowControl`, in the same order, so that its number `n` names the `n`-th one.
#[derive(Debug, Clone, Copy, PartialEq, Eq, Structural)]
pub enum FlowKind {
    Next,
    UnconditionalBranch,
    IndirectBranch,
    ConditionalBranch,
    Return,
    Call,
    IndirectCall,
    Interrupt,
    XbeginXabortXend,
    Exception,
}

impl FlowKind {
    /// The kind numbered `code` in the decoder's numbering.
    pub open spec fn of_code(code: u8) -> FlowKind {
        if code == 0 {
            FlowKind::Next
        } else if code == 1 {
            FlowKind::UnconditionalBranch
        } else if code == 2 {
            FlowKind::IndirectBranch
        } else if code == 3 {
            FlowKind::ConditionalBranch
        } else if code == 4 {
            FlowKind::Return
        } else if code == 5 {
            FlowKind::Call
        } else if code == 6 {
            FlowKind::IndirectCall
        } else if code == 7 {
            FlowKind::Interrupt
        } else if code == 8 {
            FlowKind::XbeginXabortXend
        } else {
            FlowKind::Exception
        }
    }

    /// Turns the decoder's number of a flow kind into the kind.
    pub fn from_code(code: u8) -> (r: FlowKind)
        requires
            code < 10,
        ensures
            r == FlowKind::of_code(code),
    {
        match code {
            0 => FlowKind::Next,
            1 => FlowKind::UnconditionalBranch,
            2 => FlowKind::IndirectBranch,
            3 => FlowKind::ConditionalBranch,
            4 => FlowKind::Return,
            5 => FlowKind::Call,
            6 => FlowKind::IndirectCall,
            7 => FlowKind::Interrupt,
            8 => FlowKind::XbeginXabortXend,
            _ => FlowKind::Exception,
        }
    }

    /// Control does not simply go on to the next instruction of the block:
    /// a block ends after such an instruction.
    pub open spec fn ends_block(self) -> bool {
        match self {
            FlowKind::ConditionalBranch
            | FlowKind::Return
            | FlowKind::UnconditionalBranch
            | FlowKind::IndirectBranch
            | FlowKind::Exception
            | FlowKind::Interrupt
            | FlowKind::XbeginXabortXend => true,
            _ => false,
        }
    }

    /// The kinds whose target is the instruction's near branch target.
    pub open spec fn has_branch_target(self) -> bool {
        match self {
            FlowKind::UnconditionalBranch | FlowKind::ConditionalBranch | FlowKind::Call => true,
            _ => false,
        }
    }
}

/// The instructions that end a basic block are exactly the branches (direct,
/// conditional or indirect), the returns, the interrupts, the transactional
/// aborts and the instructions the decoder reports as exceptions. Calls,
/// direct or indirect, and plain instructions do not end a block: control
/// comes back to the instruction after them. In the decoder's numbering, the
/// kinds that end a block are 1 to 4 and 7 on.
pub proof fn lemma_block_enders(k: FlowKind, code: u8)
    ensures
        k.ends_block() <==> (k == FlowKind::UnconditionalBranch || k == FlowKind::IndirectBranch
            || k == FlowKind::ConditionalBranch || k == FlowKind::Return || k == FlowKind::Interrupt
            || k == FlowKind::XbeginXabortXend || k == FlowKind::Exception),
        !FlowKind::Next.ends_block(),
        !FlowKind::Call.ends_block(),
        !FlowKind::IndirectCall.ends_block(),
        FlowKind::of_code(code).ends_block() <==> (1 <= code <= 4 || code >= 7),
{
}

/// The decoder numbers flow kinds as iced's `FlowControl` does: 0 plain,
/// 1 direct jump, 2 indirect jump, 3 conditional branch, 4 return, 5 direct
/// call, 6 indirect call, 7 interrupt, 8 transactional abort, 9 exception.
pub proof fn lemma_flow_numbering()
    ensures
        FlowKind::of_code(0) == FlowKind::Next,
        FlowKind::of_code(1) == FlowKind::UnconditionalBranch,
        FlowKind::of_code(2) == FlowKind::IndirectBranch,
        FlowKind::of_code(3) == FlowKind::ConditionalBranch,
        FlowKind::of_code(4) == FlowKind::Return,
        FlowKind::of_code(5) == FlowKind::Call,
        FlowKind::of_code(6) == FlowKind::IndirectCall,
        FlowKind::of_code(7) == FlowKind::Interrupt,
        FlowKind::of_code(8) == FlowKind::XbeginXabortXend,
        FlowKind::of_code(9) == FlowKind::Exception,
{
}

/// What the decoder reports of one instruction: its length in bytes, the
/// address that follows it, the number of its flow kind and its near branch
/// target (zero where it has none).
pub struct RawInstruction {
    pub len: usize,
    pub next_ip: u64,
    pub flow_code: u8,
    pub near_branch_target: u64,
}

/// The first instruction that iced's decoder, set to `bitness` bits and to the
/// address `ip`, reads from `data`.
pub uninterp spec fn x86_decode(bitness: u32, data: Seq<u8>, ip: u64) -> RawInstruction;

/// The Intel-syntax text that iced's `IntelFormatter` gives for the first
/// instruction decoded from `data` at address `ip` in `bitness`-bit mode.
pub uninterp spec fn intel_text(bitness: u32, data: Seq<u8>, ip: u64) -> Seq<char>;

/// Calls iced's `Decoder::new`, `Decoder::set_ip`, `Decoder::can_decode` and
/// `Decoder::decode` to read the first instruction of `data` at address `ip`.
/// Claimed of them: there is an instruction exactly when `data` is not empty
/// (`can_decode` compares the read position with the end of the data); it is
/// `x86_decode(bitness, data, ip)`; it is 1 to 15 bytes long and no longer than
/// `data` (the decoder never reads past the end, nor more than 15 bytes); the
/// next address is `ip` plus the length, wrapped to 64 bits; and the flow
/// number is below 10 (`FlowControl` has ten variants, numbered 0 to 9).
/// `Decoder::new` also panics when the slice ends within 15 bytes of the top of
/// the address space, which no allocation reaches; that is not stated.
#[verifier::external_body]
fn decode_first(bitness: u32, data: &[u8], ip: u64) -> (r: Option<RawInstruction>)
    requires
        valid_bitness(bitness),
    ensures
        r is Some <==> data@.len() > 0,
        r matches Some(raw) ==> {
            &&& raw == x86_decode(bitness, data@, ip)
            &&& 1 <= raw.len <= 15
            &&& raw.len <= data@.len()
            &&& raw.next_ip as int == (ip + raw.len) % 0x1_0000_0000_0000_0000
            &&& raw.flow_code < 10
        },
{
    let mut decoder = Decoder::new(bitness, data, DecoderOptions::NONE);
    decoder.set_ip(ip);
    if !decoder.can_decode() {
        return None;
    }
    let inst = decoder.decode();
    Some(RawInstruction {
        len: inst.len(),
        next_ip: inst.next_ip(),
        flow_code: inst.flow_control() as u8,
        near_branch_target: inst.near_branch_target(),
    })
}

/// Calls iced's `Decoder` (`new`, `set_ip`, `decode`) and then
/// `IntelFormatter::format` on the instruction that it reads. Claimed: the
/// text is `intel_text(bitness, data, ip)`.
#[verifier::external_body]
fn format_intel(bitness: u32, data: &[u8], ip: u64) -> (r: String)
    requires
        valid_bitness(bitness),
    ensures
        r@ == intel_text(bitness, data@, ip),
{
    let mut decoder = Decoder::new(bitness, data, DecoderOptions::NONE);
    decoder.set_ip(ip);
    let inst = decoder.decode();
    let mut formatter = IntelFormatter::new();
    let mut output = String::new();
    formatter.format(&inst, &mut output);
    output
}

/// The model of a decoded instruction: where it is, how long it is, where
/// execution goes next, its flow kind and near branch target, and the bytes and
/// mode it was decoded from.
pub struct InstView {
    pub ip: u64,
    pub len: usize,
    pub next_ip: u64,
    pub flow: FlowKind,
    pub near_branch_target: u64,
    pub bitness: u32,
    pub bytes: Seq<u8>,
}

impl InstView {
    /// What holds of every decoded instruction.
    pub open spec fn wf(self) -> bool {
        &&& valid_bitness(self.bitness)
        &&& 1 <= self.len <= 15
        &&& self.next_ip as int == (self.ip + self.len) % 0x1_0000_0000_0000_0000
    }

    /// The branch target, for the kinds that have one.
    pub open spec fn branch_target(self) -> Option<u64> {
        if self.flow.has_branch_target() {
            Some(self.near_branch_target)
        } else {
            None
        }
    }
}

/// The instruction that the decoder reads from `data` at `ip` in `bitness`-bit mode.
pub open spec fn decoded_inst(bitness: u32, data: Seq<u8>, ip: u64) -> InstView {
    let raw = x86_decode(bitness, data, ip);
    InstView {
        ip: ip,
        len: raw.len,
        next_ip: raw.next_ip,
        flow: FlowKind::of_code(raw.flow_code),
        near_branch_target: raw.near_branch_target,
        bitness: bitness,
        bytes: data,
    }
}

/// The line that shows `i`: its address in upper-case hexadecimal, a tab and
/// a space, its Intel-syntax text, and a line break.
pub open spec fn inst_text(i: InstView) -> Seq<char> {
    hex_text(i.ip as nat) + seq!['\t', ' '] + intel_text(i.bitness, i.bytes, i.ip) + seq!['\n']
}

/// One decoded instruction.
pub struct MyInst {
    ip: u64,
    len: usize,
    next_ip: u64,
    flow: FlowKind,
    near_branch_target: u64,
    bitness: u32,
    bytes: Vec<u8>,
}

impl View for MyInst {
    type V = InstView;

    closed spec fn view(&self) -> InstView {
        InstView {
            ip: self.ip,
            len: self.len,
            next_ip: self.next_ip,
            flow: self.flow,
            near_branch_target: self.near_branch_target,
            bitness: self.bitness,
            bytes: self.bytes@,
        }
    }
}

impl MyInst {
    #[verifier::type_invariant]
    closed spec fn inv(self) -> bool {
        self@.wf()
    }

    /// The instruction that the decoder reported as `raw` when it read `data`
    /// at `ip` in `bitness`-bit mode.
    pub fn make(bitness: u32, data: &[u8], ip: u64, raw: RawInstruction) -> (r: MyInst)
        requires
            valid_bitness(bitness),
            1 <= raw.len <= 15,
            raw.next_ip as int == (ip + raw.len) % 0x1_0000_0000_0000_0000,
            raw.flow_code < 10,
        ensures
            r@ == (InstView {
                ip: ip,
                len: raw.len,
                next_ip: raw.next_ip,
                flow: FlowKind::of_code(raw.flow_code),
                near_branch_target: raw.near_branch_target,
                bitness: bitness,
                bytes: data@,
            }),
    {
        MyInst {
            ip,
            len: raw.len,
            next_ip: raw.next_ip,
            flow: FlowKind::from_code(raw.flow_code),
            near_branch_target: raw.near_branch_target,
            bitness,
            bytes: slice_to_vec(data),
        }
    }

    /// The instruction in Intel syntax.
    pub fn stringity(&self) -> (r: String)
        ensures
            r@ == intel_text(self@.bitness, self@.bytes, self@.ip),
    {
        proof {
            use_type_invariant(self);
        }
        format_intel(self.bitness, self.bytes.as_slice(), self.ip)
    }

    /// The line that shows the instruction (see `inst_text`).
    pub fn to_string(&self) -> (r: String)
        ensures
            r@ == inst_text(self@),
    {
        let mut out = String::new();
        push_hex(&mut out, self.ip);
        push_char(&mut out, '\t');
        push_char(&mut out, ' ');
        let text = self.stringity();
        push_str(&mut out, text.as_str());
        push_char(&mut out, '\n');
        proof {
            assert(out@ =~= inst_text(self@));
        }
        out
    }

    /// The kind of control flow of the instruction.
    pub fn flow(&self) -> (r: FlowKind)
        ensures
            r == self@.flow,
    {
        self.flow
    }

    pub fn is_call(&self) -> (r: bool)
        ensures
            r == (self@.flow == FlowKind::Call),
    {
        matches!(self.flow, FlowKind::Call)
    }

    pub fn is_indirct_call(&self) -> (r: bool)
        ensures
            r == (self@.flow == FlowKind::IndirectCall),
    {
        matches!(self.flow, FlowKind::IndirectCall)
    }

    pub fn is_jmp(&self) -> (r: bool)
        ensures
            r == (self@.flow == FlowKind::UnconditionalBranch),
    {
        matches!(self.flow, FlowKind::UnconditionalBranch)
    }

    pub fn is_indirct_jmp(&self) -> (r: bool)
        ensures
            r == (self@.flow == FlowKind::IndirectBranch),
    {
        matches!(self.flow, FlowKind::IndirectBranch)
    }

    pub fn is_branch(&self) -> (r: bool)
        ensures
            r == (self@.flow == FlowKind::ConditionalBranch),
    {
        matches!(self.flow, FlowKind::ConditionalBranch)
    }

    pub fn is_ret(&self) -> (r: bool)
        ensures
            r == (self@.flow == FlowKind::Return),
    {
        matches!(self.flow, FlowKind::Return)
    }

    /// Whether a basic block ends with this instruction.
    pub fn is_bb_terminal(&self) -> (r: bool)
        ensures
            r == self@.flow.ends_block(),
    {
        matches!(
            self.flow,
            FlowKind::ConditionalBranch | FlowKind::Return | FlowKind::UnconditionalBranch
                | FlowKind::IndirectBranch | FlowKind::Exception | FlowKind::Interrupt
                | FlowKind::XbeginXabortXend
        )
    }

    /// The near branch target of a direct jump, conditional branch or call.
    pub fn get_branch_target(&self) -> (r: Option<u64>)
        ensures
            r == self@.branch_target(),
    {
        if matches!(
            self.flow,
            FlowKind::UnconditionalBranch | FlowKind::ConditionalBranch | FlowKind::Call
        ) {
            Some(self.near_branch_target)
        } else {
            None
        }
    }

    /// The address of the instruction.
    pub fn ip(&self) -> (r: u64)
        ensures
            r == self@.ip,
    {
        self.ip
    }

    /// The length of the instruction in bytes.
    pub fn len(&self) -> (r: usize)
        ensures
            r == self@.len,
            1 <= r <= 15,
    {
        proof {
            use_type_invariant(self);
        }
        self.len
    }

    /// The address right after the instruction.
    pub fn next_ip(&self) -> (r: u64)
        ensures
            r == self@.next_ip,
    {
        self.next_ip
    }
}

/// A decoder for one mode (16, 32 or 64 bits).
pub struct Disassemer {
    bit: u32,
}

impl Disassemer {
    /// The mode, in bits, that the decoder reads instructions in.
    pub closed spec fn bitness(&self) -> u32 {
        self.bit
    }

    /// A decoder for `bit`-bit code.
    pub fn make(bit: u32) -> (r: Disassemer)
        ensures
            r.bitness() == bit,
    {
        Disassemer { bit }
    }

    /// Decodes the first instruction of `data`, placed at address `ip`; there is
    /// none when `data` is empty.
    pub fn decode_one(&self, data: &[u8], ip: u64) -> (r: Option<MyInst>)
        requires
            valid_bitness(self.bitness()),
        ensures
            r is Some <==> data@.len() > 0,
            r matches Some(inst) ==> inst@ == decoded_inst(self.bitness(), data@, ip),
            r matches Some(inst) ==> inst@.wf(),
            r matches Some(inst) ==> inst@.len <= data@.len(),
    {
        match decode_first(self.bit, data, ip) {
            Some(raw) => Some(MyInst::make(self.bit, data, ip, raw)),
            None => None,
        }
    }
}

} // verus!
