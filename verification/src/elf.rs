//! ELF64 program headers, read straight off the image bytes.
//!
//! The loader needs only the magic, the entry point, and the loadable
//! segments: for each, its virtual address range, its bytes in the
//! image, and its permission flags. All fields are little-endian at the
//! documented offsets of the ELF64 format.
use vstd::prelude::*;
use crate::bytes::{le16_at, le32_at, le64_at, read_u16_vec, read_u32_vec, read_u64_vec};

verus! {

/// Program-header type of a loadable segment.
pub const ELF_PT_LOAD: u32 = 1;

/// One loadable segment of the image.
#[derive(Clone, Copy, PartialEq, Eq, Structural, Debug)]
pub struct Segment {
    pub vaddr: u64,
    pub mem_size: u64,
    pub offset: u64,
    pub file_size: u64,
    pub flags: u32,
}

/// Whether the image starts with the ELF magic.
pub open spec fn spec_elf_magic(d: Seq<u8>) -> bool {
    d.len() >= 64 && d[0] == 0x7f && d[1] == 0x45 && d[2] == 0x4c && d[3] == 0x46
}

/// The segment described by the program header at `base`.
pub open spec fn spec_segment_at(d: Seq<u8>, base: int) -> Segment {
    Segment {
        vaddr: le64_at(d, base + 16) as u64,
        mem_size: le64_at(d, base + 40) as u64,
        offset: le64_at(d, base + 8) as u64,
        file_size: le64_at(d, base + 32) as u64,
        flags: le32_at(d, base + 4) as u32,
    }
}

/// Whether the bytes are an image the parser accepts: the ELF magic,
/// headers of at least the ELF64 width, and the whole header table
/// inside the image. `parse_elf` succeeds on exactly these images.
pub open spec fn spec_elf_parses(d: Seq<u8>) -> bool {
    &&& spec_elf_magic(d)
    &&& le16_at(d, 54) >= 56
    &&& le64_at(d, 32) <= d.len()
    &&& le16_at(d, 56) * le16_at(d, 54) <= d.len() - le64_at(d, 32)
}

/// The loadable segments among the first `n` program headers, in table
/// order.
pub open spec fn spec_segments(d: Seq<u8>, phoff: int, phentsize: int, n: int) -> Seq<Segment>
    decreases n,
{
    if n <= 0 {
        Seq::empty()
    } else {
        let prev = spec_segments(d, phoff, phentsize, n - 1);
        let base = phoff + (n - 1) * phentsize;
        if le32_at(d, base) == 1 {
            prev.push(spec_segment_at(d, base))
        } else {
            prev
        }
    }
}

/// Parse an ELF64 image: verify the magic, then collect the loadable
/// segments and the entry point. `None` when the magic is wrong or a
/// header lies outside the image.
pub fn parse_elf(data: &Vec<u8>) -> (r: Option<(Vec<Segment>, u64)>)
    ensures
        r is Some <==> spec_elf_parses(data@),
        r is Some ==> spec_elf_magic(data@),
        r is Some ==> r.unwrap().1 as int == le64_at(data@, 24),
        r is Some ==> r.unwrap().0@ == spec_segments(
            data@,
            le64_at(data@, 32),
            le16_at(data@, 54),
            le16_at(data@, 56),
        ),
{
    let n = data.len();
    if n < 64 {
        return None;
    }
    if data[0] != 0x7f || data[1] != 0x45 || data[2] != 0x4c || data[3] != 0x46 {
        return None;
    }
    let entry = read_u64_vec(data, 24);
    let phoff = read_u64_vec(data, 32);
    let phentsize = read_u16_vec(data, 54) as u64;
    let phnum = read_u16_vec(data, 56) as u64;
    if phentsize < 56 {
        return None;
    }
    proof {
        assert(phnum * phentsize <= 0xffff * 0xffff) by (nonlinear_arith)
            requires
                phnum <= 0xffff && phentsize <= 0xffff,
        ;
    }
    // every header must fit inside the image
    if phoff > n as u64 || phnum * phentsize > n as u64 - phoff {
        return None;
    }
    let mut segments: Vec<Segment> = Vec::new();
    let mut i: u64 = 0;
    while i < phnum
        invariant
            n == data@.len(),
            phentsize >= 56,
            phoff + phnum * phentsize <= n,
            i <= phnum,
            segments@ == spec_segments(data@, phoff as int, phentsize as int, i as int),
        decreases phnum - i,
    {
        proof {
            assert(i * phentsize + phentsize <= phnum * phentsize) by (nonlinear_arith)
                requires
                    i < phnum && phentsize >= 56,
            ;
            assert(0 <= i * phentsize) by (nonlinear_arith)
                requires
                    i >= 0 && phentsize >= 56,
            ;
        }
        let base = (phoff + i * phentsize) as usize;
        let ptype = read_u32_vec(data, base);
        if ptype == ELF_PT_LOAD {
            let seg = Segment {
                vaddr: read_u64_vec(data, base + 16),
                mem_size: read_u64_vec(data, base + 40),
                offset: read_u64_vec(data, base + 8),
                file_size: read_u64_vec(data, base + 32),
                flags: read_u32_vec(data, base + 4),
            };
            segments.push(seg);
            proof {
                assert(seg == spec_segment_at(data@, base as int));
            }
        }
        i = i + 1;
        proof {
            assert(segments@ == spec_segments(data@, phoff as int, phentsize as int, i as int));
        }
    }
    Some((segments, entry))
}

} // verus!
