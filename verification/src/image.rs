use vstd::prelude::*;
use pelite::pe64::{Pe, PeFile};

verus! {

/// `MZ`, the magic number of a DOS header.
pub const IMAGE_DOS_SIGNATURE: u16 = 0x5A4D;

/// `PE\0\0`, the signature of the NT headers.
pub const IMAGE_NT_HEADERS_SIGNATURE: u32 = 0x0000_4550;

/// The optional-header magic of a 32-bit image.
pub const IMAGE_NT_OPTIONAL_HDR32_MAGIC: u16 = 0x10b;

/// The optional-header magic of a 64-bit image.
pub const IMAGE_NT_OPTIONAL_HDR64_MAGIC: u16 = 0x20b;

/// The section characteristic of executable code.
pub const IMAGE_SCN_MEM_EXECUTE: u32 = 0x2000_0000;

/// The header fields of a PE image that the parser reads.
#[derive(Debug, Clone, Copy, PartialEq, Eq, Structural)]
pub struct PeHeaders {
    pub dos_magic: u16,
    pub nt_signature: u32,
    pub optional_magic: u16,
    pub entry_point: u32,
    pub image_base: u64,
}

/// One entry of the section table.
pub struct SectionInfo {
    pub name: String,
    pub virtual_address: u32,
    pub virtual_size: u32,
    pub pointer_to_raw_data: u32,
    pub size_of_raw_data: u32,
    pub characteristics: u32,
}

/// The model of a section table entry.
pub struct SectionView {
    pub name: Seq<char>,
    pub virtual_address: u32,
    pub virtual_size: u32,
    pub pointer_to_raw_data: u32,
    pub size_of_raw_data: u32,
    pub characteristics: u32,
}

impl SectionInfo {
    /// A copy of the entry.
    pub fn duplicate(&self) -> (r: SectionInfo)
        ensures
            r@ == self@,
    {
        SectionInfo {
            name: self.name.clone(),
            virtual_address: self.virtual_address,
            virtual_size: self.virtual_size,
            pointer_to_raw_data: self.pointer_to_raw_data,
            size_of_raw_data: self.size_of_raw_data,
            characteristics: self.characteristics,
        }
    }
}

impl View for SectionInfo {
    type V = SectionView;

    open spec fn view(&self) -> SectionView {
        SectionView {
            name: self.name@,
            virtual_address: self.virtual_address,
            virtual_size: self.virtual_size,
            pointer_to_raw_data: self.pointer_to_raw_data,
            size_of_raw_data: self.size_of_raw_data,
            characteristics: self.characteristics,
        }
    }
}

/// The little-endian 16-bit value at `at` in `b`.
pub open spec fn le_u16(b: Seq<u8>, at: int) -> u16 {
    (b[at] as int + b[at + 1] as int * 0x100) as u16
}

/// The little-endian 32-bit value at `at` in `b`.
pub open spec fn le_u32(b: Seq<u8>, at: int) -> u32 {
    (le_u16(b, at) as int + le_u16(b, at + 2) as int * 0x1_0000) as u32
}

/// The little-endian 64-bit value at `at` in `b`.
pub open spec fn le_u64(b: Seq<u8>, at: int) -> u64 {
    (le_u32(b, at) as int + le_u32(b, at + 4) as int * 0x1_0000_0000) as u64
}

/// The header fields of the PE64 image `image`: the DOS magic at the start;
/// the NT headers at the offset stored at 0x3C, with their signature, then
/// (24 bytes in) the optional header with its magic, entry point (at 16) and
/// image base (at 24).
pub open spec fn pe_headers(image: Seq<u8>) -> PeHeaders {
    let nt = le_u32(image, 0x3C) as int;
    PeHeaders {
        dos_magic: le_u16(image, 0),
        nt_signature: le_u32(image, nt),
        optional_magic: le_u16(image, nt + 24),
        entry_point: le_u32(image, nt + 40),
        image_base: le_u64(image, nt + 48),
    }
}

/// The section table that pelite reads from the PE64 image `image`.
pub uninterp spec fn pe_sections(image: Seq<u8>) -> Seq<SectionView>;

/// What pelite's `derva_slice::<u8>(rva, len)` gives on the PE64 image
/// `image`: the `len` bytes at `rva`, or nothing where it reports an error.
pub uninterp spec fn pe_rva_bytes(image: Seq<u8>, rva: u32, len: usize) -> Option<Seq<u8>>;

/// What pelite's `exports().and_then(functions)` gives on the PE64 image
/// `image`: the export address table, or nothing where it reports an error
/// (as for an image without exports).
pub uninterp spec fn pe_export_functions(image: Seq<u8>) -> Option<Seq<u32>>;

/// Calls pelite's `PeFile::from_bytes` on `image` and, where it accepts it,
/// reads `dos_header().e_magic`, `nt_headers().Signature`, and the optional
/// header's `Magic`, `AddressOfEntryPoint` and `ImageBase`. pelite reads these
/// structures in place from the bytes; claimed: the values are the
/// little-endian ones of `pe_headers(image)` (which holds on the little-endian
/// targets; big-endian ones are not stated). Not stated: when `from_bytes`
/// accepts the image, for it also checks that the bytes are 4-aligned in memory.
#[verifier::external_body]
fn read_headers(image: &[u8]) -> (r: Option<PeHeaders>)
    ensures
        r matches Some(h) ==> h == pe_headers(image@),
{
    match PeFile::from_bytes(image) {
        Ok(pe) => {
            let nt = pe.nt_headers();
            Some(PeHeaders {
                dos_magic: pe.dos_header().e_magic,
                nt_signature: nt.Signature,
                optional_magic: nt.OptionalHeader.Magic,
                entry_point: nt.OptionalHeader.AddressOfEntryPoint,
                image_base: nt.OptionalHeader.ImageBase,
            })
        },
        Err(_) => None,
    }
}

/// Calls pelite's `PeFile::from_bytes` and `section_headers`, and copies each
/// header (`name`, where it is not valid UTF-8 the empty name). Claimed: the
/// table is `pe_sections(image)`. Not stated: when `from_bytes` accepts the image.
#[verifier::external_body]
fn read_sections(image: &[u8]) -> (r: Option<Vec<SectionInfo>>)
    ensures
        r matches Some(s) ==> s@.map_values(|x: SectionInfo| x@) == pe_sections(image@),
{
    match PeFile::from_bytes(image) {
        Ok(pe) => Some(pe.section_headers().iter().map(|s| SectionInfo {
            name: s.name().unwrap_or("").to_string(),
            virtual_address: s.VirtualAddress,
            virtual_size: s.VirtualSize,
            pointer_to_raw_data: s.PointerToRawData,
            size_of_raw_data: s.SizeOfRawData,
            characteristics: s.Characteristics,
        }).collect()),
        Err(_) => None,
    }
}

/// Calls pelite's `PeFile::from_bytes` and, where it accepts the image,
/// `derva_slice::<u8>(rva, len)`, keeping its error apart. Claimed: what
/// `derva_slice` gives is `pe_rva_bytes(image, rva, len)`, and bytes that it
/// returns are `len` long (it slices exactly `len` elements). Not stated: when
/// `from_bytes` accepts the image (the outer `None`).
#[verifier::external_body]
fn read_rva_bytes(image: &[u8], rva: u32, len: usize) -> (r: Option<Option<Vec<u8>>>)
    ensures
        r matches Some(d) ==> match d {
            Some(b) => b@.len() == len && pe_rva_bytes(image@, rva, len) == Some(b@),
            None => pe_rva_bytes(image@, rva, len) is None,
        },
{
    match PeFile::from_bytes(image) {
        Ok(pe) => Some(pe.derva_slice::<u8>(rva, len).ok().map(|d| d.to_vec())),
        Err(_) => None,
    }
}

/// Calls pelite's `PeFile::from_bytes` and, where it accepts the image,
/// `exports` and `Exports::functions`, keeping their errors apart. Claimed:
/// what they give is `pe_export_functions(image)`. Not stated: when
/// `from_bytes` accepts the image (the outer `None`).
#[verifier::external_body]
fn read_export_functions(image: &[u8]) -> (r: Option<Option<Vec<u32>>>)
    ensures
        r matches Some(f) ==> match f {
            Some(t) => pe_export_functions(image@) == Some(t@),
            None => pe_export_functions(image@) is None,
        },
{
    match PeFile::from_bytes(image) {
        Ok(pe) => Some(pe.exports().ok().and_then(|e| e.functions().ok()).map(|f| f.to_vec())),
        Err(_) => None,
    }
}

/// How many bytes of the section `s` are read as its data: its raw size or
/// its virtual size, whichever is smaller.
pub open spec fn section_data_len(s: SectionView) -> u32 {
    if s.size_of_raw_data < s.virtual_size {
        s.size_of_raw_data
    } else {
        s.virtual_size
    }
}

/// A section of the image: its table entry, and its data as pelite hands it
/// over (see `section_data_len`); nothing where pelite reports an error, or
/// where the section holds no code and its data was not read.
pub struct PeSection {
    pub header: SectionInfo,
    pub data: Option<Vec<u8>>,
}

/// The model of a section of the image.
pub struct PeSectionView {
    pub header: SectionView,
    pub data: Option<Seq<u8>>,
}

impl PeSectionView {
    /// The data, where there is any, is as long as `section_data_len` says.
    pub open spec fn wf(self) -> bool {
        self.data matches Some(d) ==> d.len() == section_data_len(self.header)
    }
}

impl View for PeSection {
    type V = PeSectionView;

    open spec fn view(&self) -> PeSectionView {
        PeSectionView {
            header: self.header@,
            data: match self.data {
                Some(d) => Some(d@),
                None => None,
            },
        }
    }
}

/// What the parser reads of a PE64 image, once, where pelite accepts it: the
/// header fields, the sections (with the data of those that hold code), and
/// the export address table.
pub struct PeImage {
    pub headers: PeHeaders,
    pub sections: Vec<PeSection>,
    pub exports: Option<Vec<u32>>,
}

/// The model of what the parser reads of an image.
pub struct PeImageView {
    pub headers: PeHeaders,
    pub sections: Seq<PeSectionView>,
    pub exports: Option<Seq<u32>>,
}

impl PeImageView {
    /// Every section's data is as long as `section_data_len` says.
    pub open spec fn wf(self) -> bool {
        forall|j: int| 0 <= j < self.sections.len() ==> (#[trigger] self.sections[j]).wf()
    }
}

impl View for PeImage {
    type V = PeImageView;

    open spec fn view(&self) -> PeImageView {
        PeImageView {
            headers: self.headers,
            sections: self.sections@.map_values(|s: PeSection| s@),
            exports: match self.exports {
                Some(f) => Some(f@),
                None => None,
            },
        }
    }
}

/// The section `s` of `image`, with its data where it holds executable code
/// (the data of other sections is not read).
pub open spec fn pe_section(image: Seq<u8>, s: SectionView) -> PeSectionView {
    PeSectionView {
        header: s,
        data: if s.characteristics & IMAGE_SCN_MEM_EXECUTE != 0 {
            pe_rva_bytes(image, s.virtual_address, section_data_len(s) as usize)
        } else {
            None
        },
    }
}

/// What the parser reads of the PE64 image `image`.
pub open spec fn pe_image(image: Seq<u8>) -> PeImageView {
    PeImageView {
        headers: pe_headers(image),
        sections: pe_sections(image).map_values(|s: SectionView| pe_section(image, s)),
        exports: pe_export_functions(image),
    }
}

impl PeImage {
    /// Reads `image` through pelite: its headers, its sections with the data
    /// of those that hold code, and its export table, each read on the bytes as pelite's
    /// `PeFile::from_bytes` accepts them. There is nothing where pelite does
    /// not accept them. When that happens is not stated: besides the format,
    /// `from_bytes` asks that the bytes start at a 4-aligned address, which
    /// depends on where the caller's buffer lies in memory. Once an image is
    /// read, everything the parser does with it depends on the values read only.
    pub fn load(image: &[u8]) -> (r: Option<PeImage>)
        ensures
            r matches Some(p) ==> p@ == pe_image(image@) && p@.wf(),
    {
        let headers = match read_headers(image) {
            Some(h) => h,
            None => {
                return None;
            },
        };
        let table = match read_sections(image) {
            Some(t) => t,
            None => {
                return None;
            },
        };
        let ghost views = table@.map_values(|x: SectionInfo| x@);
        let n = table.len();
        let mut sections: Vec<PeSection> = Vec::new();
        let mut i: usize = 0;
        while i < n
            invariant
                n == table@.len(),
                views == table@.map_values(|x: SectionInfo| x@),
                i <= n,
                sections@.len() == i,
                forall|j: int| 0 <= j < i ==> (#[trigger] sections@[j])@ == pe_section(image@, views[j]),
                forall|j: int| 0 <= j < i ==> (#[trigger] sections@[j])@.wf(),
            decreases n - i,
        {
            let header = table[i].duplicate();
            let len = if header.size_of_raw_data < header.virtual_size {
                header.size_of_raw_data
            } else {
                header.virtual_size
            };
            let data = if header.characteristics & IMAGE_SCN_MEM_EXECUTE != 0 {
                match read_rva_bytes(image, header.virtual_address, len as usize) {
                    Some(d) => d,
                    None => {
                        return None;
                    },
                }
            } else {
                None
            };
            sections.push(PeSection { header, data });
            i = i + 1;
        }
        let exports = match read_export_functions(image) {
            Some(f) => f,
            None => {
                return None;
            },
        };
        let r = PeImage { headers, sections, exports };
        proof {
            assert(r@.sections =~= pe_image(image@).sections);
            assert forall|j: int| 0 <= j < r@.sections.len() implies (#[trigger] r@.sections[j]).wf() by {
                assert(r@.sections[j] == sections@[j]@);
            }
        }
        Some(r)
    }
}

} // verus!
