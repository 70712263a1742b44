//! The download pipeline: detects the image format, extracts its load
//! segments as write requests, and drives the builder and loader as one
//! transaction.

use vstd::prelude::*;

use crate::algorithm::FlashAlgorithm;
use crate::builder::FlashBuilder;
use crate::builder::FlashSector;
use crate::builder::conflict_at;
use crate::builder::conflict_free;
use crate::builder::flash_all;
use crate::builder::out_of_range_run;
use crate::builder::page_ok;
use crate::builder::page_touched;
use crate::builder::plan_byte;
use crate::builder::plan_loadable;
use crate::builder::plan_matches;
use crate::builder::plan_view;
use crate::builder::sector_ok;
use crate::builder::sector_touched;
use crate::config::Config;
use crate::errors::AlgorithmParseError;
use crate::errors::BuildError;
use crate::errors::Error;
use crate::errors::FlashError;
use crate::loader::FlashLoader;
use crate::loader::plan_has_page_addr;
use crate::loader::plan_has_sector_addr;
use crate::loader::plan_mismatch_at;
use crate::memory::MemoryMap;
use crate::mi::MemoryInterface;

verus! {

/// Image formats the pipeline recognises by content signature.
#[derive(Clone, Copy, PartialEq, Eq, Structural, Debug)]
pub enum ImageFormat {
    Elf,
}

/// Whether the image starts with the ELF magic bytes.
pub open spec fn spec_is_elf(b: Seq<u8>) -> bool {
    b.len() >= 4 && b[0] == 0x7F && b[1] == 0x45 && b[2] == 0x4C && b[3] == 0x46
}

/// Detects the image format from its content signature.
pub fn detect_format(image: &[u8]) -> (r: Option<ImageFormat>)
    ensures
        r == Some(ImageFormat::Elf) <==> spec_is_elf(image@),
        r is Some ==> r == Some(ImageFormat::Elf),
{
    if image.len() >= 4 && image[0] == 0x7F && image[1] == 0x45 && image[2] == 0x4C && image[3]
        == 0x46 {
        Some(ImageFormat::Elf)
    } else {
        None
    }
}

/// A little-endian half word of the image.
pub open spec fn le16_at(b: Seq<u8>, off: int) -> int {
    b[off] + 0x100 * b[off + 1]
}

/// A little-endian word of the image.
pub open spec fn le32_at(b: Seq<u8>, off: int) -> int {
    b[off] + 0x100 * b[off + 1] + 0x1_0000 * b[off + 2] + 0x100_0000 * b[off + 3]
}

fn read_u16_le(b: &[u8], off: usize) -> (r: u16)
    requires
        off + 2 <= b@.len(),
    ensures
        r == le16_at(b@, off as int),
{
    b[off] as u16 + 0x100 * (b[off + 1] as u16)
}

fn read_u32_le(b: &[u8], off: usize) -> (r: u32)
    requires
        off + 4 <= b@.len(),
    ensures
        r == le32_at(b@, off as int),
{
    b[off] as u32 + 0x100 * (b[off + 1] as u32) + 0x1_0000 * (b[off + 2] as u32) + 0x100_0000 * (
    b[off + 3] as u32)
}

/// The number of program headers the ELF header declares.
pub open spec fn spec_phnum(b: Seq<u8>) -> int {
    le16_at(b, 44)
}

/// Where program header `j` starts in the image.
pub open spec fn spec_ph_base(b: Seq<u8>, j: int) -> int {
    le32_at(b, 28) + 32 * j
}

/// Whether header `j` describes a loadable segment with file contents.
pub open spec fn spec_ph_loadable(b: Seq<u8>, j: int) -> bool {
    &&& le32_at(b, spec_ph_base(b, j)) == 1
    &&& le32_at(b, spec_ph_base(b, j) + 16) > 0
}

/// The write request segment `j` asks for: its physical address and its
/// exact file bytes.
pub open spec fn spec_segment(b: Seq<u8>, j: int) -> (u32, Seq<u8>) {
    (
        le32_at(b, spec_ph_base(b, j) + 12) as u32,
        b.subrange(
            le32_at(b, spec_ph_base(b, j) + 4),
            le32_at(b, spec_ph_base(b, j) + 4) + le32_at(b, spec_ph_base(b, j) + 16),
        ),
    )
}

/// The ELF header is usable: the magic, the 32-bit little-endian class,
/// a complete header, and the fixed program header entry size.
pub open spec fn spec_elf_header_ok(b: Seq<u8>) -> bool {
    &&& spec_is_elf(b)
    &&& b.len() >= 52
    &&& b[4] == 1
    &&& b[5] == 1
    &&& le16_at(b, 42) == 32
}

/// Program header `j` lies inside the image and, if loadable, its file
/// bytes lie inside the image and its segment inside the address space.
pub open spec fn spec_ph_ok(b: Seq<u8>, j: int) -> bool {
    &&& spec_ph_base(b, j) + 32 <= b.len()
    &&& (spec_ph_loadable(b, j) ==> le32_at(b, spec_ph_base(b, j) + 4) + le32_at(
        b,
        spec_ph_base(b, j) + 16,
    ) <= b.len() && le32_at(b, spec_ph_base(b, j) + 12) + le32_at(b, spec_ph_base(b, j) + 16)
        <= 0x1_0000_0000)
}

/// The image is an ELF whose every program header is usable; exactly
/// these images yield load segments.
pub open spec fn spec_elf_wf(b: Seq<u8>) -> bool {
    &&& spec_elf_header_ok(b)
    &&& forall|j: int| 0 <= j < spec_phnum(b) ==> spec_ph_ok(b, j)
}

/// The loadable segments among the first `j` program headers, in
/// header order.
pub open spec fn spec_segments_upto(b: Seq<u8>, j: int) -> Seq<(u32, Seq<u8>)>
    decreases j,
{
    if j <= 0 {
        Seq::empty()
    } else if spec_ph_loadable(b, j - 1) {
        spec_segments_upto(b, j - 1).push(spec_segment(b, j - 1))
    } else {
        spec_segments_upto(b, j - 1)
    }
}

/// Every loadable segment of the image, in header order.
pub open spec fn spec_load_segments(b: Seq<u8>) -> Seq<(u32, Seq<u8>)> {
    spec_segments_upto(b, spec_phnum(b))
}

/// The extracted requests equal the model segments pairwise.
pub open spec fn segs_match(v: Seq<(u32, Vec<u8>)>, s: Seq<(u32, Seq<u8>)>) -> bool {
    &&& v.len() == s.len()
    &&& forall|i: int| 0 <= i < v.len() ==> (#[trigger] v[i]).0 == s[i].0 && v[i].1@ == s[i].1
}

/// Reads an ELF image's program headers and hands back one write
/// request per loadable segment, in header order: exactly the model
/// segments, each with that segment's physical address and exact file
/// bytes. Succeeds exactly on a well-formed image.
pub fn extract_load_segments(image: &[u8]) -> (r: Result<
    Vec<(u32, Vec<u8>)>,
    AlgorithmParseError,
>)
    ensures
        r is Ok <==> spec_elf_wf(image@),
        match r {
            Ok(v) => segs_match(v@, spec_load_segments(image@)) && (forall|i: int|
                0 <= i < v@.len() ==> (#[trigger] v@[i]).0 + v@[i].1@.len() <= 0x1_0000_0000),
            Err(e) => e == AlgorithmParseError::Malformed,
        },
{
    if !(image.len() >= 4 && image[0] == 0x7F && image[1] == 0x45 && image[2] == 0x4C && image[3]
        == 0x46) {
        return Err(AlgorithmParseError::Malformed);
    }
    if image.len() < 52 {
        return Err(AlgorithmParseError::Malformed);
    }
    // 32-bit, little endian only
    if !(image[4] == 1 && image[5] == 1) {
        return Err(AlgorithmParseError::Malformed);
    }
    let phoff = read_u32_le(image, 28);
    let phentsize = read_u16_le(image, 42);
    let phnum = read_u16_le(image, 44);
    if phentsize != 32 {
        return Err(AlgorithmParseError::Malformed);
    }
    proof {
        assert(spec_elf_header_ok(image@));
    }
    let mut out: Vec<(u32, Vec<u8>)> = Vec::new();
    let mut j: usize = 0;
    while j < phnum as usize
        invariant
            spec_elf_header_ok(image@),
            phoff == le32_at(image@, 28),
            phnum == spec_phnum(image@),
            0 <= j <= phnum,
            forall|jj: int| 0 <= jj < j ==> spec_ph_ok(image@, jj),
            segs_match(out@, spec_segments_upto(image@, j as int)),
            forall|i: int|
                0 <= i < out@.len() ==> (#[trigger] out@[i]).0 + out@[i].1@.len()
                    <= 0x1_0000_0000,
        decreases phnum as int - j,
    {
        let ph: u64 = phoff as u64 + 32u64 * j as u64;
        proof {
            assert(ph == spec_ph_base(image@, j as int));
        }
        if ph + 32 > image.len() as u64 {
            proof {
                assert(!spec_ph_ok(image@, j as int));
            }
            return Err(AlgorithmParseError::Malformed);
        }
        let phu = ph as usize;
        let p_type = read_u32_le(image, phu);
        let p_offset = read_u32_le(image, phu + 4);
        let p_paddr = read_u32_le(image, phu + 12);
        let p_filesz = read_u32_le(image, phu + 16);
        if p_type == 1 && p_filesz > 0 {
            proof {
                assert(spec_ph_loadable(image@, j as int));
            }
            if p_offset as u64 + p_filesz as u64 > image.len() as u64 {
                proof {
                    assert(!spec_ph_ok(image@, j as int));
                }
                return Err(AlgorithmParseError::Malformed);
            }
            if p_paddr as u64 + p_filesz as u64 > 0x1_0000_0000u64 {
                proof {
                    assert(!spec_ph_ok(image@, j as int));
                }
                return Err(AlgorithmParseError::Malformed);
            }
            let data = copy_range(image, p_offset as usize, p_offset as usize + p_filesz as usize);
            let ghost before = out@;
            out.push((p_paddr, data));
            proof {
                assert(data@ == spec_segment(image@, j as int).1);
                assert(p_paddr == spec_segment(image@, j as int).0);
                assert(spec_segments_upto(image@, j + 1) == spec_segments_upto(
                    image@,
                    j as int,
                ).push(spec_segment(image@, j as int)));
                assert(out@ == before.push((p_paddr, data)));
                assert(segs_match(out@, spec_segments_upto(image@, j + 1)));
            }
        } else {
            proof {
                assert(!spec_ph_loadable(image@, j as int));
                assert(spec_segments_upto(image@, j + 1) == spec_segments_upto(image@, j as int));
            }
        }
        j += 1;
    }
    proof {
        assert(spec_elf_wf(image@));
        assert(spec_segments_upto(image@, phnum as int) == spec_load_segments(image@));
    }
    Ok(out)
}

/// Copies `src[start..end]` out.
fn copy_range(src: &[u8], start: usize, end: usize) -> (r: Vec<u8>)
    requires
        0 <= start <= end <= src@.len(),
    ensures
        r@ == src@.subrange(start as int, end as int),
{
    let mut out: Vec<u8> = Vec::new();
    let mut i: usize = start;
    while i < end
        invariant
            0 <= start <= i <= end <= src@.len(),
            out@ == src@.subrange(start as int, i as int),
        decreases end - i,
    {
        out.push(src[i]);
        proof {
            assert(out@ =~= src@.subrange(start as int, i + 1));
        }
        i += 1;
    }
    out
}

/// Downloads an image to the target as one logical transaction: detect
/// the format, stage every load segment, build the plan, and drive the
/// loader; any failure aborts all remaining sectors.
///
/// A malformed image or an unstageable request set is rejected before
/// any access to the target. On success the plan is exactly the built
/// plan of the image's load segments, and with verify enabled the
/// target holds every planned byte.
pub fn download_image<M: MemoryInterface>(
    mi: &mut M,
    image: &[u8],
    alg: &FlashAlgorithm,
    map: &MemoryMap,
    cfg: &Config,
) -> (r: Result<Vec<FlashSector>, Error>)
    requires
        alg.geometry_wf(),
        alg.buffer_address + alg.page_size <= 0x1_0000_0000,
        map.wf(),
        cfg.wf(),
    ensures
        ({
            let segs = spec_load_segments(image@);
            let ps = alg.page_size as int;
            let ss = alg.sector_size as int;
            match r {
                Ok(plan) => {
                    &&& spec_elf_wf(image@)
                    &&& conflict_free(segs)
                    &&& flash_all(segs, *map)
                    &&& plan_matches(segs, ps, ss, plan_view(plan@))
                    &&& (cfg.verify ==> forall|k: int, p: int, o: int|
                        #![trigger plan@[k].pages@[p].data@[o]]
                        0 <= k < plan@.len() && 0 <= p < plan@[k].pages@.len() && 0 <= o
                            < plan@[k].pages@[p].data@.len() ==> final(mi).mem()[(
                        plan@[k].pages@[p].address + o) as u32] == plan@[k].pages@[p].data@[o])
                },
                Err(Error::Parse(e)) => !spec_elf_wf(image@) && e
                    == AlgorithmParseError::Malformed && *final(mi) == *old(mi),
                Err(Error::Build(e)) => spec_elf_wf(image@) && *final(mi) == *old(mi) && (match e {
                    BuildError::ConflictingData(a) => conflict_at(segs, a as int) && (forall|x: int|
                        x < a ==> !conflict_at(segs, x)),
                    BuildError::OutOfRange(a0, l) => conflict_free(segs) && out_of_range_run(
                        segs,
                        *map,
                        a0 as int,
                        l as int,
                    ),
                }),
                Err(Error::Flash(f)) => spec_elf_wf(image@) && conflict_free(segs) && flash_all(
                    segs,
                    *map,
                ) && (match f {
                    FlashError::VerifyFailed(a) => cfg.verify && final(mi).mem()[a] != plan_byte(
                        segs,
                        a as int,
                    ) && (exists|pa: int|
                        #[trigger] page_touched(segs, ps, pa) && pa % ps == 0 && pa <= a < pa + ps),
                    FlashError::AlgorithmError(code, a) => code != 0 && (a == 0 || (a as int % ss
                        == 0 && sector_touched(segs, ss, a as int)) || (a as int % ps == 0
                        && page_touched(segs, ps, a as int))),
                    FlashError::Timeout(a) => a == 0 || (a as int % ss == 0 && sector_touched(
                        segs,
                        ss,
                        a as int,
                    )) || (a as int % ps == 0 && page_touched(segs, ps, a as int)),
                    FlashError::ProbeLost(_) => true,
                }),
                _ => false,
            }
        }),
{
    if detect_format(image).is_none() {
        return Err(Error::Parse(AlgorithmParseError::Malformed));
    }
    let segments = match extract_load_segments(image) {
        Ok(v) => v,
        Err(e) => {
            return Err(Error::Parse(e));
        },
    };
    let ghost segs = spec_load_segments(image@);
    let mut builder = FlashBuilder::new();
    let nseg = segments.len();
    let mut s: usize = 0;
    proof {
        assert(builder.reqs() =~= segs.subrange(0, 0));
    }
    while s < nseg
        invariant
            builder.wf(),
            nseg == segments@.len(),
            0 <= s <= nseg,
            segs == spec_load_segments(image@),
            segs_match(segments@, segs),
            builder.reqs() == segs.subrange(0, s as int),
            forall|i: int|
                0 <= i < segments@.len() ==> (#[trigger] segments@[i]).0 + segments@[i].1@.len()
                    <= 0x1_0000_0000,
        decreases nseg - s,
    {
        let addr = segments[s].0;
        let data = segments[s].1.clone();
        proof {
            assert(segments@[s as int].0 + segments@[s as int].1@.len() <= 0x1_0000_0000);
        }
        let ghost before = builder.reqs();
        builder.add_data(addr, data);
        proof {
            assert(data@ == segs[s as int].1);
            assert(builder.reqs() == before.push((addr, data@)));
            assert(builder.reqs() =~= segs.subrange(0, s + 1));
        }
        s += 1;
    }
    proof {
        assert(builder.reqs() =~= segs);
    }
    let plan = match builder.build(alg, map) {
        Ok(p) => p,
        Err(e) => {
            return Err(Error::Build(e));
        },
    };
    proof {
        crate::builder::lemma_plan_from_build_loadable(
            builder.reqs(),
            alg.page_size as int,
            alg.sector_size as int,
            plan@,
        );
        assert(plan_loadable(plan@, alg.page_size as int));
    }
    let mut loader = FlashLoader::new();
    match loader.run(mi, alg, &plan, cfg) {
        Ok(()) => Ok(plan),
        Err(e) => {
            proof {
                lemma_plan_error_sites(
                    segs,
                    alg.page_size as int,
                    alg.sector_size as int,
                    plan@,
                    final(mi).mem(),
                    e,
                    cfg.verify,
                );
            }
            Err(Error::Flash(e))
        },
    }
}

/// A failure address the loader reports against a plan that matches the
/// request model names a planned sector or page of that model, and a
/// verify mismatch names a planned byte that differs from the model's
/// plan byte.
proof fn lemma_plan_error_sites(
    rs: Seq<(u32, Seq<u8>)>,
    ps: int,
    ss: int,
    plan: Seq<FlashSector>,
    m: Map<u32, u8>,
    e: FlashError,
    verify: bool,
)
    requires
        plan_matches(rs, ps, ss, plan_view(plan)),
        match e {
            FlashError::AlgorithmError(code, a) => code != 0 && (a == 0 || plan_has_sector_addr(
                plan,
                a,
            ) || plan_has_page_addr(plan, a)),
            FlashError::Timeout(a) => a == 0 || plan_has_sector_addr(plan, a)
                || plan_has_page_addr(plan, a),
            FlashError::VerifyFailed(a) => verify && plan_mismatch_at(plan, m, a),
            FlashError::ProbeLost(_) => true,
        },
    ensures
        match e {
            FlashError::AlgorithmError(code, a) => code != 0 && (a == 0 || (a as int % ss == 0
                && sector_touched(rs, ss, a as int)) || (a as int % ps == 0 && page_touched(
                rs,
                ps,
                a as int,
            ))),
            FlashError::Timeout(a) => a == 0 || (a as int % ss == 0 && sector_touched(
                rs,
                ss,
                a as int,
            )) || (a as int % ps == 0 && page_touched(rs, ps, a as int)),
            FlashError::VerifyFailed(a) => verify && m[a] != plan_byte(rs, a as int) && (exists|pa: int|
                #[trigger] page_touched(rs, ps, pa) && pa % ps == 0 && pa <= a < pa + ps),
            FlashError::ProbeLost(_) => true,
        },
{
    match e {
        FlashError::AlgorithmError(_, a) => {
            lemma_plan_addr_sites(rs, ps, ss, plan, a);
        },
        FlashError::Timeout(a) => {
            lemma_plan_addr_sites(rs, ps, ss, plan, a);
        },
        FlashError::VerifyFailed(a) => {
            let (k, p, o) = choose|k: int, p: int, o: int|
                #![trigger plan[k].pages@[p].data@[o]]
                0 <= k < plan.len() && 0 <= p < plan[k].pages@.len() && 0 <= o
                    < plan[k].pages@[p].data@.len() && plan[k].pages@[p].address + o == a && m[a]
                    != plan[k].pages@[p].data@[o];
            assert(sector_ok(rs, ps, ss, plan_view(plan)[k]));
            assert(plan_view(plan)[k].2[p] == plan[k].pages@[p]@);
            assert(page_ok(rs, ps, plan_view(plan)[k].2[p]));
            assert(plan[k].pages@[p].data@[o] == plan_byte(rs, plan[k].pages@[p].address + o));
            assert(page_touched(rs, ps, plan[k].pages@[p].address as int));
        },
        FlashError::ProbeLost(_) => {},
    }
}

/// A sector or page address of a plan that matches the request model is
/// an aligned, touched sector or page address of the model.
proof fn lemma_plan_addr_sites(rs: Seq<(u32, Seq<u8>)>, ps: int, ss: int, plan: Seq<FlashSector>, a: u32)
    requires
        plan_matches(rs, ps, ss, plan_view(plan)),
        a == 0 || plan_has_sector_addr(plan, a) || plan_has_page_addr(plan, a),
    ensures
        a == 0 || (a as int % ss == 0 && sector_touched(rs, ss, a as int)) || (a as int % ps == 0
            && page_touched(rs, ps, a as int)),
{
    if plan_has_sector_addr(plan, a) {
        let k = choose|k: int| 0 <= k < plan.len() && (#[trigger] plan[k]).address == a;
        assert(sector_ok(rs, ps, ss, plan_view(plan)[k]));
        assert(plan_view(plan)[k].0 == a);
    } else if plan_has_page_addr(plan, a) {
        let (k, p) = choose|k: int, p: int|
            0 <= k < plan.len() && 0 <= p < plan[k].pages@.len() && (
            #[trigger] plan[k].pages@[p]).address == a;
        assert(sector_ok(rs, ps, ss, plan_view(plan)[k]));
        assert(plan_view(plan)[k].2[p] == plan[k].pages@[p]@);
        assert(page_ok(rs, ps, plan_view(plan)[k].2[p]));
    }
}

} // verus!
