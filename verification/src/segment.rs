use vstd::prelude::*;
use vstd::slice::{slice_subrange, slice_to_vec};

use crate::image::{section_data_len, PeSection, PeSectionView};

verus! {

/// The model of a code segment: the section's name and placement, and the
/// bytes of it that the image holds.
pub struct SegmentView {
    pub name: Seq<char>,
    pub rva: u32,
    pub mem_size: u32,
    pub offset: u32,
    pub size: u32,
    pub data: Seq<u8>,
}

impl SegmentView {
    /// `rva` lies in the segment's raw extent, the end taken without wrapping.
    pub open spec fn contains_rva(self, rva: u32) -> bool {
        self.rva <= rva && rva < self.rva + self.size
    }

    /// The `size` bytes at `rva`, where the segment holds all of them.
    pub open spec fn read(self, rva: u32, size: u32) -> Option<Seq<u8>> {
        if !self.contains_rva(rva) {
            None
        } else {
            let offset = rva - self.rva;
            if offset + size > self.data.len() {
                None
            } else {
                Some(self.data.subrange(offset, offset + size))
            }
        }
    }

    /// How many bytes a read at `rva` (at or after the start) copies into a
    /// buffer of `buf_len` bytes: those the segment holds from there on, at
    /// most `buf_len`.
    pub open spec fn copy_len(self, rva: u32, buf_len: int) -> int {
        let offset = rva - self.rva;
        if offset >= self.data.len() {
            0
        } else if buf_len < self.data.len() - offset {
            buf_len
        } else {
            self.data.len() - offset
        }
    }

    /// The buffer `buf` after a read at `rva`: the bytes copied, then what
    /// `buf` held after them.
    pub open spec fn fill(self, rva: u32, buf: Seq<u8>) -> Seq<u8> {
        let offset = rva - self.rva;
        let n = self.copy_len(rva, buf.len() as int);
        if n == 0 {
            buf
        } else {
            self.data.subrange(offset, offset + n) + buf.skip(n)
        }
    }
}

/// The segment that `CodeSegment::make` builds from the section `s`: the
/// section's name and placement, and as data the bytes that pelite handed
/// over for it, or none where pelite reported an error.
pub open spec fn segment_of(s: PeSectionView) -> SegmentView {
    SegmentView {
        name: s.header.name,
        rva: s.header.virtual_address,
        mem_size: s.header.virtual_size,
        offset: s.header.pointer_to_raw_data,
        size: s.header.size_of_raw_data,
        data: match s.data {
            Some(d) => d,
            None => Seq::empty(),
        },
    }
}

/// A section of the image that holds code, with its bytes.
pub struct CodeSegment {
    pub name: String,
    pub rva: u32,
    pub mem_size: u32,
    pub offset: u32,
    pub size: u32,
    pub data: Vec<u8>,
}

impl View for CodeSegment {
    type V = SegmentView;

    open spec fn view(&self) -> SegmentView {
        SegmentView {
            name: self.name@,
            rva: self.rva,
            mem_size: self.mem_size,
            offset: self.offset,
            size: self.size,
            data: self.data@,
        }
    }
}

impl CodeSegment {
    /// The segment of the section `s`: its name and placement, and a copy of
    /// its data (none where pelite could not hand it over). Where the section
    /// is well formed, the data is empty or `min(raw size, virtual size)` long.
    pub fn make(s: &PeSection) -> (r: CodeSegment)
        ensures
            r@ == segment_of(s@),
            s@.wf() ==> r.data@.len() == 0 || r.data@.len() == section_data_len(s@.header),
    {
        let data = match &s.data {
            Some(d) => slice_to_vec(d.as_slice()),
            None => Vec::new(),
        };
        let r = CodeSegment {
            name: s.header.name.clone(),
            rva: s.header.virtual_address,
            mem_size: s.header.virtual_size,
            offset: s.header.pointer_to_raw_data,
            size: s.header.size_of_raw_data,
            data,
        };
        proof {
            assert(r@.data =~= segment_of(s@).data);
        }
        r
    }

    /// Whether `rva` lies in the segment's raw extent.
    pub fn contains_rva(&self, rva: u32) -> (r: bool)
        ensures
            r == self@.contains_rva(rva),
    {
        rva >= self.rva && (rva as u64) < self.rva as u64 + self.size as u64
    }

    /// The `size` bytes at `rva`, or nothing where the segment does not hold them all.
    pub fn read(&self, rva: u32, size: u32) -> (r: Option<&[u8]>)
        ensures
            r matches Some(s) ==> self@.read(rva, size) == Some(s@) && s@.len() == size,
            r is None <==> self@.read(rva, size) is None,
    {
        if !self.contains_rva(rva) {
            return None;
        }
        let offset = (rva - self.rva) as usize;
        if offset as u64 + size as u64 > self.data.len() as u64 {
            return None;
        }
        Some(slice_subrange(self.data.as_slice(), offset, offset + size as usize))
    }

    /// Copies into `buffer` the bytes that the segment holds from `rva` on, as
    /// many as fit, and says how many it copied; the rest of `buffer` keeps
    /// what it held.
    pub fn read_into(&self, rva: u32, buffer: &mut [u8]) -> (r: usize)
        requires
            self.rva <= rva,
        ensures
            r == self@.copy_len(rva, old(buffer)@.len() as int),
            final(buffer)@ == self@.fill(rva, old(buffer)@),
    {
        let offset = (rva - self.rva) as usize;
        if offset >= self.data.len() {
            proof {
                assert(self@.fill(rva, old(buffer)@) =~= old(buffer)@);
            }
            return 0;
        }
        let dlen = self.data.len();
        let available = dlen - offset;
        let copy_len = if buffer.len() < available {
            buffer.len()
        } else {
            available
        };
        let mut i: usize = 0;
        while i < copy_len
            invariant
                i <= copy_len,
                copy_len <= buffer@.len(),
                offset + copy_len <= dlen,
                dlen == self.data@.len(),
                buffer@.len() == old(buffer)@.len(),
                forall|j: int| 0 <= j < i ==> buffer@[j] == self.data@[offset + j],
                forall|j: int| i <= j < buffer@.len() ==> buffer@[j] == old(buffer)@[j],
            decreases copy_len - i,
        {
            let b = self.data[offset + i];
            buffer[i] = b;
            i = i + 1;
        }
        proof {
            assert(buffer@ =~= self@.fill(rva, old(buffer)@));
        }
        copy_len
    }
}

/// The index of the first segment, from `from` on, that contains `rva`, or -1.
pub open spec fn first_segment(segs: Seq<SegmentView>, rva: u32, from: int) -> int
    decreases segs.len() - from,
{
    if from < 0 || from >= segs.len() {
        -1
    } else if segs[from].contains_rva(rva) {
        from
    } else {
        first_segment(segs, rva, from + 1)
    }
}

/// How many bytes a read of code at `rva` copies into a buffer of `buf_len`
/// bytes: none where no segment contains `rva`, else what the first that does
/// copies.
pub open spec fn code_read_len(segs: Seq<SegmentView>, rva: u32, buf_len: int) -> int {
    let i = first_segment(segs, rva, 0);
    if i < 0 {
        0
    } else {
        segs[i].copy_len(rva, buf_len)
    }
}

/// The buffer `buf` after a read of code at `rva`.
pub open spec fn code_fill(segs: Seq<SegmentView>, rva: u32, buf: Seq<u8>) -> Seq<u8> {
    let i = first_segment(segs, rva, 0);
    if i < 0 {
        buf
    } else {
        segs[i].fill(rva, buf)
    }
}

} // verus!
