use vstd::prelude::*;

use crate::text::{hex_text, push_hex, push_str};

verus! {

/// A relative virtual address inside a loaded image.
pub type Rva = u32;

/// A file offset.
pub type Offset = u32;

/// A virtual address.
pub type Va = u64;

/// The platform an image is built for.
#[derive(Debug, Clone, Copy, PartialEq, Eq, Structural)]
pub enum Model {
    Unknown,
    Win32,
    Win64,
}

/// The word size of an image.
#[derive(Debug, Clone, Copy, PartialEq, Eq, Structural)]
pub enum Bit {
    Unknown,
    Bit32,
    Bit64,
}

/// The name under which `m` is shown.
pub open spec fn model_name(m: Model) -> Seq<char> {
    match m {
        Model::Unknown => "None"@,
        Model::Win32 => "Win32"@,
        Model::Win64 => "Win64"@,
    }
}

/// The name under which `b` is shown.
pub open spec fn bit_name(b: Bit) -> Seq<char> {
    match b {
        Bit::Unknown => "None"@,
        Bit::Bit32 => "Bit32"@,
        Bit::Bit64 => "Bit64"@,
    }
}

/// What the parser learns about an image as a whole.
pub struct Object {
    pub model: Model,
    pub bit: Bit,
    pub entry_point: Rva,
    pub imagebase: Va,
}

impl Object {
    /// An object that knows nothing yet: no model, no word size, both addresses zero.
    pub fn make() -> (r: Self)
        ensures
            r.model == Model::Unknown,
            r.bit == Bit::Unknown,
            r.entry_point == 0,
            r.imagebase == 0,
    {
        Object { model: Model::Unknown, bit: Bit::Unknown, entry_point: 0, imagebase: 0 }
    }

    /// The lines that show the object: its model, its word size, and its entry
    /// point and image base in upper-case hexadecimal.
    pub open spec fn base_info_text(self) -> Seq<char> {
        "Model: "@ + model_name(self.model) + "\nBit: "@ + bit_name(self.bit) + "\nEntry Point: 0x"@
            + hex_text(self.entry_point as nat) + "\nImage Base: 0x"@ + hex_text(self.imagebase as nat)
            + "\n"@
    }

    /// The lines that show the object (see `base_info_text`).
    pub fn base_info(&self) -> (r: String)
        ensures
            r@ == self.base_info_text(),
    {
        let mut out = String::new();
        push_str(&mut out, "Model: ");
        match self.model {
            Model::Unknown => push_str(&mut out, "None"),
            Model::Win32 => push_str(&mut out, "Win32"),
            Model::Win64 => push_str(&mut out, "Win64"),
        }
        push_str(&mut out, "\nBit: ");
        match self.bit {
            Bit::Unknown => push_str(&mut out, "None"),
            Bit::Bit32 => push_str(&mut out, "Bit32"),
            Bit::Bit64 => push_str(&mut out, "Bit64"),
        }
        push_str(&mut out, "\nEntry Point: 0x");
        push_hex(&mut out, self.entry_point as u64);
        push_str(&mut out, "\nImage Base: 0x");
        push_hex(&mut out, self.imagebase);
        push_str(&mut out, "\n");
        proof {
            assert(out@ =~= self.base_info_text());
        }
        out
    }
}

} // verus!
