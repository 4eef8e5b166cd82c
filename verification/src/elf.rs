//! A little-endian ELF64 reader, just deep enough to load a static
//! executable: the magic number, the entry point, and the loadable program
//! headers with their flags and file windows.

use vstd::prelude::*;
use vstd::string::StringExecFns;
use crate::error::KernelError;

verus! {

/// Offset of the entry-point field in the ELF header.
pub const ELF_ENTRY_OFF: usize = 24;

/// Offset of the program-header table offset field.
pub const ELF_PHOFF_OFF: usize = 32;

/// Offset of the program-header entry size field.
pub const ELF_PHENTSIZE_OFF: usize = 54;

/// Offset of the program-header count field.
pub const ELF_PHNUM_OFF: usize = 56;

/// A loadable program header's type value.
pub const PT_LOAD: u64 = 1;

/// The little-endian value of `n` bytes starting at `off`.
pub open spec fn le_bytes_val(b: Seq<u8>, off: int, n: int) -> int
    decreases n,
{
    if n <= 0 {
        0
    } else {
        b[off] + 256 * le_bytes_val(b, off + 1, n - 1)
    }
}

/// Whether the image starts with the ELF magic number.
pub open spec fn elf_magic_ok(b: Seq<u8>) -> bool {
    &&& b.len() >= 64
    &&& b[0] == 0x7f
    &&& b[1] == 0x45
    &&& b[2] == 0x4c
    &&& b[3] == 0x46
}

/// `256^n` is positive.
pub proof fn lemma_pow256_pos(n: int)
    ensures
        crate::elf::pow256(n) >= 1,
    decreases n,
{
    if n > 0 {
        lemma_pow256_pos(n - 1);
    }
}

proof fn lemma_pow256_vals()
    ensures
        pow256(1) == 0x100,
        pow256(2) == 0x1_0000,
        pow256(4) == 0x1_0000_0000,
        pow256(8) == 0x1_0000_0000_0000_0000,
{
    reveal_with_fuel(pow256, 9);
}

proof fn lemma_le_bytes_bound(b: Seq<u8>, off: int, n: int)
    requires
        0 <= n <= 8,
        0 <= off,
        off + n <= b.len(),
    ensures
        0 <= le_bytes_val(b, off, n) < pow256(n),
    decreases n,
{
    if n > 0 {
        lemma_le_bytes_bound(b, off + 1, n - 1);
    }
}

/// 256 to the power `n`, for byte-count bounds.
pub open spec fn pow256(n: int) -> int
    decreases n,
{
    if n <= 0 {
        1
    } else {
        256 * pow256(n - 1)
    }
}

/// Read the little-endian 64-bit value at `off`.
pub fn read_u64_le(b: &Vec<u8>, off: usize) -> (r: u64)
    requires
        off + 8 <= b@.len(),
    ensures
        r == le_bytes_val(b@, off as int, 8),
{
    let blen: usize = b.len();
    proof {
        lemma_le_bytes_bound(b@, off as int, 8);
        lemma_pow256_vals();
        assert(off + 8 <= blen);
    }
    let b7: u64 = b[off + 7] as u64;
    let b6: u64 = b[off + 6] as u64 + 256 * b7;
    let b5: u64 = b[off + 5] as u64 + 256 * b6;
    let b4: u64 = b[off + 4] as u64 + 256 * b5;
    let b3: u64 = b[off + 3] as u64 + 256 * b4;
    let b2: u64 = b[off + 2] as u64 + 256 * b3;
    let b1: u64 = b[off + 1] as u64 + 256 * b2;
    let b0: u64 = b[off] as u64 + 256 * b1;
    proof {
        assert(le_bytes_val(b@, off as int, 8) == b@[off as int] + 256 * le_bytes_val(
            b@,
            off as int + 1,
            7,
        ));
        lemma_le_bytes_bound(b@, off as int + 1, 7);
        lemma_le_bytes_bound(b@, off as int + 2, 6);
        lemma_le_bytes_bound(b@, off as int + 3, 5);
        lemma_le_bytes_bound(b@, off as int + 4, 4);
        lemma_le_bytes_bound(b@, off as int + 5, 3);
        lemma_le_bytes_bound(b@, off as int + 6, 2);
        lemma_le_bytes_bound(b@, off as int + 7, 1);
    }
    b0
}

/// Read the little-endian 32-bit value at `off`.
pub fn read_u32_le(b: &Vec<u8>, off: usize) -> (r: u32)
    requires
        off + 4 <= b@.len(),
    ensures
        r == le_bytes_val(b@, off as int, 4),
{
    proof {
        lemma_le_bytes_bound(b@, off as int, 4);
        lemma_pow256_vals();
        lemma_le_bytes_bound(b@, off as int + 1, 3);
        lemma_le_bytes_bound(b@, off as int + 2, 2);
        lemma_le_bytes_bound(b@, off as int + 3, 1);
    }
    let blen: usize = b.len();
    proof {
        assert(off + 4 <= blen);
    }
    let b3: u32 = b[off + 3] as u32;
    let b2: u32 = b[off + 2] as u32 + 256 * b3;
    let b1: u32 = b[off + 1] as u32 + 256 * b2;
    let b0: u32 = b[off] as u32 + 256 * b1;
    b0
}

/// Read the little-endian 16-bit value at `off`.
pub fn read_u16_le(b: &Vec<u8>, off: usize) -> (r: u16)
    requires
        off + 2 <= b@.len(),
    ensures
        r == le_bytes_val(b@, off as int, 2),
{
    proof {
        lemma_le_bytes_bound(b@, off as int, 2);
        lemma_pow256_vals();
        lemma_le_bytes_bound(b@, off as int + 1, 1);
    }
    let blen: usize = b.len();
    proof {
        assert(off + 2 <= blen);
    }
    let b1: u16 = b[off + 1] as u16;
    let b0: u16 = b[off] as u16 + 256 * b1;
    b0
}


/// The program-header table offset field.
pub open spec fn phoff_spec(b: Seq<u8>) -> int {
    le_bytes_val(b, ELF_PHOFF_OFF as int, 8)
}

/// The program-header entry size field.
pub open spec fn phentsize_spec(b: Seq<u8>) -> int {
    le_bytes_val(b, ELF_PHENTSIZE_OFF as int, 2)
}

/// The program-header count field.
pub open spec fn phnum_spec(b: Seq<u8>) -> int {
    le_bytes_val(b, ELF_PHNUM_OFF as int, 2)
}

/// Whether program header `i` is loadable.
pub open spec fn header_is_load(b: Seq<u8>, i: int) -> bool {
    le_bytes_val(b, phoff_spec(b) + i * phentsize_spec(b), 4) == PT_LOAD
}

/// The file window of program header `i` lies outside the file.
pub open spec fn header_window_bad(b: Seq<u8>, i: int) -> bool {
    le_bytes_val(b, phoff_spec(b) + i * phentsize_spec(b) + 8, 8) + le_bytes_val(
        b,
        phoff_spec(b) + i * phentsize_spec(b) + 32,
        8,
    ) > b.len()
}

/// Exactly the images the reader rejects: too short, wrong magic, an
/// undersized header entry, a header table outside the file, or a
/// loadable header whose file window leaves the file.
pub open spec fn parse_rejects(b: Seq<u8>) -> bool {
    ||| b.len() < 64
    ||| !elf_magic_ok(b)
    ||| phentsize_spec(b) < 56
    ||| phoff_spec(b) > b.len()
    ||| phnum_spec(b) * phentsize_spec(b) > b.len() - phoff_spec(b)
    ||| (exists|i: int|
        0 <= i < phnum_spec(b) && #[trigger] header_is_load(b, i) && header_window_bad(b, i))
}

/// The segment list is exactly the loadable headers of the image, in
/// header order: every entry matches its header, indexes are strictly
/// increasing, and every loadable header has an entry.
pub open spec fn seg_list_exact(segs: Seq<ElfSegment>, b: Seq<u8>) -> bool {
    &&& forall|j: int|
        0 <= j < segs.len() ==> (#[trigger] segs[j]).matches_header(
            b,
            phoff_spec(b),
            phentsize_spec(b),
        )
    &&& forall|j: int| 0 <= j < segs.len() ==> (#[trigger] segs[j]).ph_index < phnum_spec(b)
    &&& forall|j1: int, j2: int|
        0 <= j1 < j2 < segs.len() ==> (#[trigger] segs[j1]).ph_index < (
        #[trigger] segs[j2]).ph_index
    &&& forall|i: int|
        0 <= i < phnum_spec(b) && #[trigger] header_is_load(b, i) ==> exists|j: int|
            0 <= j < segs.len() && (#[trigger] segs[j]).ph_index == i
}

/// One loadable segment: its program-header index, virtual placement,
/// file window, and permission flags (ELF PF_X/PF_W/PF_R).
pub struct ElfSegment {
    pub ph_index: usize,
    pub vaddr: u64,
    pub mem_size: u64,
    pub file_off: usize,
    pub file_size: usize,
    pub flags: u32,
}

impl ElfSegment {
    /// The fields equal the little-endian header fields of program header
    /// `ph_index` of image `b`, and the file window lies inside `b`.
    pub open spec fn matches_header(self, b: Seq<u8>, phoff: int, phentsize: int) -> bool {
        let h = phoff + self.ph_index * phentsize;
        &&& le_bytes_val(b, h, 4) == PT_LOAD
        &&& self.flags == le_bytes_val(b, h + 4, 4)
        &&& self.file_off == le_bytes_val(b, h + 8, 8)
        &&& self.vaddr == le_bytes_val(b, h + 16, 8)
        &&& self.file_size == le_bytes_val(b, h + 32, 8)
        &&& self.mem_size == le_bytes_val(b, h + 40, 8)
        &&& self.file_off + self.file_size <= b.len()
    }
}

/// A parsed ELF image: its entry point and loadable segments, in program
/// header order.
pub struct ElfImage {
    pub entry: u64,
    pub segs: Vec<ElfSegment>,
}

impl ElfImage {
    /// The headers this image was read from.
    pub open spec fn matches(self, b: Seq<u8>) -> bool {
        let phoff = le_bytes_val(b, ELF_PHOFF_OFF as int, 8);
        let phentsize = le_bytes_val(b, ELF_PHENTSIZE_OFF as int, 2);
        &&& elf_magic_ok(b)
        &&& self.entry == le_bytes_val(b, ELF_ENTRY_OFF as int, 8)
        &&& forall|j: int|
            0 <= j < self.segs@.len() ==> (#[trigger] self.segs@[j]).matches_header(
                b,
                phoff,
                phentsize,
            )
    }

    /// Parse an image: reject a short or non-ELF file, a header table
    /// outside the file, or a load segment whose file window lies outside
    /// the file.
    pub fn parse(b: &Vec<u8>) -> (r: Result<ElfImage, KernelError>)
        ensures
            r matches Ok(img) ==> img.matches(b@) && seg_list_exact(img.segs@, b@),
            r is Err <==> parse_rejects(b@),
    {
        if b.len() < 64 {
            return Err(KernelError::InvalidArgument(String::from_str("truncated image")));
        }
        if !(b[0] == 0x7f && b[1] == 0x45 && b[2] == 0x4c && b[3] == 0x46) {
            return Err(KernelError::InvalidArgument(String::from_str("not an executable image")));
        }
        let entry: u64 = read_u64_le(b, ELF_ENTRY_OFF);
        let phoff: u64 = read_u64_le(b, ELF_PHOFF_OFF);
        let phentsize: u64 = read_u16_le(b, ELF_PHENTSIZE_OFF) as u64;
        let phnum: u64 = read_u16_le(b, ELF_PHNUM_OFF) as u64;
        if phentsize < 56 {
            return Err(KernelError::InvalidArgument(String::from_str("bad header size")));
        }
        proof {
            assert(phnum * phentsize <= 0xFFFF * 0xFFFF) by (nonlinear_arith)
                requires
                    0 <= phnum <= 0xFFFF,
                    0 <= phentsize <= 0xFFFF,
            ;
        }
        if phoff > b.len() as u64 || phnum * phentsize > b.len() as u64 - phoff {
            return Err(KernelError::InvalidArgument(String::from_str("headers out of range")));
        }
        let mut segs: Vec<ElfSegment> = Vec::new();
        let blen2: usize = b.len();
        let mut i: u64 = 0;
        while i < phnum
            invariant
                0 <= i <= phnum,
                phnum <= 0xFFFF,
                phentsize >= 56,
                phentsize <= 0xFFFF,
                b@.len() == blen2,
                phoff + phnum * phentsize <= b@.len(),
                phoff == phoff_spec(b@),
                phentsize == phentsize_spec(b@),
                phnum == phnum_spec(b@),
                forall|j: int|
                    0 <= j < segs@.len() ==> (#[trigger] segs@[j]).matches_header(
                        b@,
                        phoff as int,
                        phentsize as int,
                    ),
                forall|j: int| 0 <= j < segs@.len() ==> (#[trigger] segs@[j]).ph_index < i,
                forall|j1: int, j2: int|
                    0 <= j1 < j2 < segs@.len() ==> (#[trigger] segs@[j1]).ph_index < (
                    #[trigger] segs@[j2]).ph_index,
                forall|ii: int|
                    0 <= ii < i && #[trigger] header_is_load(b@, ii) ==> exists|j: int|
                        0 <= j < segs@.len() && (#[trigger] segs@[j]).ph_index == ii,
                forall|ii: int|
                    0 <= ii < i && #[trigger] header_is_load(b@, ii) ==> !header_window_bad(
                        b@,
                        ii,
                    ),
            decreases phnum - i,
        {
            proof {
                assert(phoff + i * phentsize + phentsize <= phoff + phnum * phentsize) by (
                nonlinear_arith)
                    requires
                        0 <= i < phnum,
                        phentsize >= 56,
                        phoff >= 0,
                ;
            }
            let h: usize = (phoff + i * phentsize) as usize;
            let ghost segs0 = segs@;
            let p_type: u32 = read_u32_le(b, h);
            if p_type as u64 == PT_LOAD {
                let flags: u32 = read_u32_le(b, h + 4);
                let file_off: u64 = read_u64_le(b, h + 8);
                let vaddr: u64 = read_u64_le(b, h + 16);
                let file_size: u64 = read_u64_le(b, h + 32);
                let mem_size: u64 = read_u64_le(b, h + 40);
                if file_off > b.len() as u64 || file_size > b.len() as u64 - file_off {
                    proof {
                        assert(header_is_load(b@, i as int) && header_window_bad(b@, i as int));
                    }
                    return Err(
                        KernelError::InvalidArgument(String::from_str("segment out of range")),
                    );
                }
                let seg = ElfSegment {
                    ph_index: i as usize,
                    vaddr,
                    mem_size,
                    file_off: file_off as usize,
                    file_size: file_size as usize,
                    flags,
                };
                segs.push(seg);
                proof {
                    assert(segs@[segs0.len() as int] == seg);
                    assert forall|j: int|
                        0 <= j < segs@.len() implies (#[trigger] segs@[j]).matches_header(
                        b@,
                        phoff as int,
                        phentsize as int,
                    ) by {
                        if j < segs0.len() {
                            assert(segs@[j] == segs0[j]);
                        }
                    }
                    assert forall|ii: int|
                        0 <= ii < i + 1 && #[trigger] header_is_load(b@, ii) implies exists|
                        j: int,
                    | 0 <= j < segs@.len() && (#[trigger] segs@[j]).ph_index == ii by {
                        if ii < i {
                            let j0 = choose|j0: int|
                                0 <= j0 < segs0.len() && (#[trigger] segs0[j0]).ph_index == ii;
                            assert(segs@[j0] == segs0[j0]);
                        } else {
                            assert(segs@[segs0.len() as int].ph_index == ii);
                        }
                    }
                }
            } else {
                proof {
                    assert(!header_is_load(b@, i as int));
                }
            }
            i = i + 1;
        }
        proof {
            assert(!parse_rejects(b@)) by {
                if parse_rejects(b@) {
                    assert(exists|ii: int|
                        0 <= ii < phnum_spec(b@) && #[trigger] header_is_load(b@, ii)
                            && header_window_bad(b@, ii));
                }
            }
        }
        Ok(ElfImage { entry, segs })
    }
}

} // verus!
