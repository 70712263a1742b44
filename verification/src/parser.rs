//! The descriptor parser: builds a validated target descriptor from the
//! structured key/value text form.
//!
//! The text form is line based: `#` starts a comment, blank lines are
//! skipped, and every other line is `key=value`. `name=` names the
//! target; `region=flash:<start>:<size>` (or `ram:`, `external:`) adds
//! a memory region, listed in ascending address order;
//! `algorithm=<name>` opens an algorithm block whose later lines set
//! `load_address`, `init`, `uninit`, `erase_sector`, `program_page`,
//! `erase_all`, `page_size`, `sector_size`, `stack_top`, `buffer`,
//! `double_buffer` (0 or 1) and `code` (hex digits). Numbers are
//! decimal or `0x` hex. A missing mandatory entry point is reported as
//! exactly that and never given a default offset.

use vstd::prelude::*;

use crate::algorithm::FlashAlgorithm;
use crate::algorithm::NamedAlgorithm;
use crate::algorithm::TargetDescriptor;
use crate::algorithm::bytes_eq;
use crate::errors::AlgorithmParseError;
use crate::errors::FlashRoutine;
use crate::errors::LayoutIssue;
use crate::memory::MemoryMap;
use crate::memory::MemoryRegion;
use crate::memory::RegionKind;
use crate::memory::regions_wf;

verus! {

/// An algorithm block as read from the text, before validation:
/// nothing is defaulted, absent keys stay absent.
pub struct RawAlgorithm {
    pub load_address: Option<u32>,
    pub init: Option<u32>,
    pub uninit: Option<u32>,
    pub erase_sector: Option<u32>,
    pub program_page: Option<u32>,
    pub erase_all: Option<u32>,
    pub page_size: Option<u32>,
    pub sector_size: Option<u32>,
    pub stack_top: Option<u32>,
    pub buffer_address: Option<u32>,
    pub double_buffer: bool,
    pub code: Option<Vec<u8>>,
}

impl RawAlgorithm {
    pub fn new() -> (r: RawAlgorithm)
        ensures
            r.load_address is None && r.init is None && r.uninit is None && r.erase_sector
                is None && r.program_page is None && r.erase_all is None && r.page_size is None
                && r.sector_size is None && r.stack_top is None && r.buffer_address is None
                && !r.double_buffer && r.code is None,
    {
        RawAlgorithm {
            load_address: None,
            init: None,
            uninit: None,
            erase_sector: None,
            program_page: None,
            erase_all: None,
            page_size: None,
            sector_size: None,
            stack_top: None,
            buffer_address: None,
            double_buffer: false,
            code: None,
        }
    }

    /// All fields an algorithm cannot do without, besides the two
    /// mandatory entry points.
    pub open spec fn fields_complete(self) -> bool {
        &&& self.load_address is Some
        &&& self.page_size is Some
        &&& self.sector_size is Some
        &&& self.stack_top is Some
        &&& self.buffer_address is Some
        &&& self.code is Some
    }

    /// The algorithm a complete raw block with both entry points
    /// describes, field for field, before validation.
    pub open spec fn spec_assembled(self) -> FlashAlgorithm {
        FlashAlgorithm {
            code: self.code->0,
            load_address: self.load_address->0,
            init: self.init,
            uninit: self.uninit,
            erase_sector: self.erase_sector->0,
            program_page: self.program_page->0,
            erase_all: self.erase_all,
            page_size: self.page_size->0,
            sector_size: self.sector_size->0,
            stack_top: self.stack_top->0,
            buffer_address: self.buffer_address->0,
            double_buffer: self.double_buffer,
        }
    }
}

/// The assembled algorithm reflects the raw block field for field.
pub open spec fn raw_matches(raw: RawAlgorithm, alg: FlashAlgorithm) -> bool {
    &&& raw.program_page == Some(alg.program_page)
    &&& raw.erase_sector == Some(alg.erase_sector)
    &&& raw.init == alg.init
    &&& raw.uninit == alg.uninit
    &&& raw.erase_all == alg.erase_all
    &&& raw.load_address == Some(alg.load_address)
    &&& raw.page_size == Some(alg.page_size)
    &&& raw.sector_size == Some(alg.sector_size)
    &&& raw.stack_top == Some(alg.stack_top)
    &&& raw.buffer_address == Some(alg.buffer_address)
    &&& raw.double_buffer == alg.double_buffer
    &&& (match raw.code {
        Some(c) => alg.code@ == c@,
        None => false,
    })
}

/// What the assembly stage owes a raw block against a region list: the
/// mandatory entry points are demanded first, then the remaining
/// fields, then every layout invariant, in that order.
pub open spec fn spec_block_outcome(raw: RawAlgorithm, regs: Seq<MemoryRegion>) -> Result<
    (),
    AlgorithmParseError,
> {
    if raw.program_page is None {
        Err(AlgorithmParseError::MissingFunction(FlashRoutine::ProgramPage))
    } else if raw.erase_sector is None {
        Err(AlgorithmParseError::MissingFunction(FlashRoutine::EraseSector))
    } else if !raw.fields_complete() {
        Err(AlgorithmParseError::Malformed)
    } else {
        raw.spec_assembled().spec_validate_in(regs)
    }
}

/// Turns a raw block into a validated algorithm. The mandatory entry
/// points are demanded first — a block without `program_page` or
/// `erase_sector` is rejected as exactly that, identically on every
/// attempt, and no offset is ever invented — then the remaining fields
/// are required, then every layout invariant is checked.
pub fn assemble_algorithm(raw: RawAlgorithm, map: &MemoryMap) -> (r: Result<
    FlashAlgorithm,
    AlgorithmParseError,
>)
    requires
        map.wf(),
    ensures
        raw.program_page is None <==> r == Err::<FlashAlgorithm, AlgorithmParseError>(
            AlgorithmParseError::MissingFunction(FlashRoutine::ProgramPage),
        ),
        raw.program_page is Some && raw.erase_sector is None <==> r == Err::<
            FlashAlgorithm,
            AlgorithmParseError,
        >(AlgorithmParseError::MissingFunction(FlashRoutine::EraseSector)),
        raw.program_page is Some && raw.erase_sector is Some && !raw.fields_complete() <==> r
            == Err::<FlashAlgorithm, AlgorithmParseError>(AlgorithmParseError::Malformed),
        raw.program_page is Some && raw.erase_sector is Some && raw.fields_complete() ==> r == (
        match raw.spec_assembled().spec_validate(*map) {
            Ok(()) => Ok::<FlashAlgorithm, AlgorithmParseError>(raw.spec_assembled()),
            Err(e) => Err::<FlashAlgorithm, AlgorithmParseError>(e),
        }),
        match r {
            Ok(alg) => {
                &&& alg.geometry_wf()
                &&& alg.placed_wf(*map)
                &&& raw_matches(raw, alg)
                &&& spec_block_outcome(raw, map.regions()) is Ok
            },
            Err(e) => spec_block_outcome(raw, map.regions()) == Err::<(), AlgorithmParseError>(e),
        },
{
    let program_page = match raw.program_page {
        Some(v) => v,
        None => {
            return Err(AlgorithmParseError::MissingFunction(FlashRoutine::ProgramPage));
        },
    };
    let erase_sector = match raw.erase_sector {
        Some(v) => v,
        None => {
            return Err(AlgorithmParseError::MissingFunction(FlashRoutine::EraseSector));
        },
    };
    if !(raw.load_address.is_some() && raw.page_size.is_some() && raw.sector_size.is_some()
        && raw.stack_top.is_some() && raw.buffer_address.is_some() && raw.code.is_some()) {
        return Err(AlgorithmParseError::Malformed);
    }
    let alg = FlashAlgorithm {
        code: match raw.code {
            Some(c) => c,
            None => Vec::new(),
        },
        load_address: match raw.load_address {
            Some(v) => v,
            None => 0,
        },
        init: raw.init,
        uninit: raw.uninit,
        erase_sector,
        program_page,
        erase_all: raw.erase_all,
        page_size: match raw.page_size {
            Some(v) => v,
            None => 0,
        },
        sector_size: match raw.sector_size {
            Some(v) => v,
            None => 0,
        },
        stack_top: match raw.stack_top {
            Some(v) => v,
            None => 0,
        },
        buffer_address: match raw.buffer_address {
            Some(v) => v,
            None => 0,
        },
        double_buffer: raw.double_buffer,
    };
    proof {
        assert(alg == raw.spec_assembled());
    }
    match alg.validate(map) {
        Ok(()) => Ok(alg),
        Err(e) => Err(e),
    }
}

/// Parses an unsigned number, decimal or `0x` hex.
fn parse_u32(s: &[u8]) -> (r: Option<u32>) {
    let (digits_start, hex) = if s.len() >= 2 && s[0] == 0x30u8 && (s[1] == 0x78u8 || s[1]
        == 0x58u8) {
        (2usize, true)
    } else {
        (0usize, false)
    };
    if digits_start >= s.len() {
        return None;
    }
    let mut value: u64 = 0;
    let mut i: usize = digits_start;
    while i < s.len()
        invariant
            value <= 0xFFFF_FFFF,
        decreases s@.len() - i,
    {
        let c = s[i];
        let d: u64 = if c >= 0x30 && c <= 0x39 {
            (c - 0x30) as u64
        } else if hex && c >= 0x61 && c <= 0x66 {
            (c - 0x61) as u64 + 10
        } else if hex && c >= 0x41 && c <= 0x46 {
            (c - 0x41) as u64 + 10
        } else {
            return None;
        };
        value = if hex {
            value * 16 + d
        } else {
            value * 10 + d
        };
        if value > 0xFFFF_FFFF {
            return None;
        }
        i += 1;
    }
    Some(value as u32)
}

/// Parses an even string of hex digits into bytes.
fn parse_hex_bytes(s: &[u8]) -> (r: Option<Vec<u8>>) {
    if s.len() % 2 != 0 {
        return None;
    }
    let mut out: Vec<u8> = Vec::new();
    let mut i: usize = 0;
    while i < s.len()
        invariant
            s@.len() % 2 == 0,
            i % 2 == 0,
            0 <= i <= s@.len(),
        decreases s@.len() - i,
    {
        let hi = match hex_digit(s[i]) {
            Some(v) => v,
            None => {
                return None;
            },
        };
        let lo = match hex_digit(s[i + 1]) {
            Some(v) => v,
            None => {
                return None;
            },
        };
        out.push(hi * 16 + lo);
        i += 2;
    }
    Some(out)
}

fn hex_digit(c: u8) -> (r: Option<u8>)
    ensures
        r matches Some(v) ==> v < 16,
{
    if c >= 0x30 && c <= 0x39 {
        Some(c - 0x30)
    } else if c >= 0x61 && c <= 0x66 {
        Some(c - 0x61 + 10)
    } else if c >= 0x41 && c <= 0x46 {
        Some(c - 0x41 + 10)
    } else {
        None
    }
}

/// One named algorithm block as scanned from the text, before
/// validation: absent keys stay absent.
pub struct RawBlock {
    pub name: Vec<u8>,
    pub raw: RawAlgorithm,
}

/// Everything the scanner reads out of descriptor text: the target
/// name, the region list and the raw algorithm blocks, in the order
/// written, none of it yet validated.
pub struct RawDescriptor {
    pub name: Vec<u8>,
    pub regions: Vec<MemoryRegion>,
    pub blocks: Vec<RawBlock>,
}

/// Scans descriptor text into its raw parts. The scanner rejects only
/// ill-shaped text — a missing target name, a line without `=`, an
/// unknown key, an unparsable value — always as `Malformed`; judging a
/// block's content is the assembly stage's work, so a missing entry
/// point never surfaces from here.
pub fn scan_text(src: &[u8]) -> (r: Result<RawDescriptor, AlgorithmParseError>)
    ensures
        r matches Err(e) ==> e == AlgorithmParseError::Malformed,
{
    let mut name: Option<Vec<u8>> = None;
    let mut regions: Vec<MemoryRegion> = Vec::new();
    let mut open: Option<RawBlock> = None;
    let mut raws: Vec<RawBlock> = Vec::new();

    let n = src.len();
    let mut i: usize = 0;
    while i < n
        invariant
            n == src@.len(),
            0 <= i <= n,
        decreases n - i,
    {
        // take one line
        let mut j: usize = i;
        while j < n && src[j] != 0x0Au8
            invariant
                n == src@.len(),
                i <= j <= n,
            decreases n - j,
        {
            j += 1;
        }
        let line_start = i;
        let line_end = j;
        i = if j < n {
            j + 1
        } else {
            n
        };
        if line_end == line_start || src[line_start] == 0x23u8 {
            continue ;
        }
        // split at '='
        let mut eq: usize = line_start;
        while eq < line_end && src[eq] != 0x3Du8
            invariant
                n == src@.len(),
                line_start <= eq <= line_end <= n,
            decreases line_end - eq,
        {
            eq += 1;
        }
        if eq == line_end {
            return Err(AlgorithmParseError::Malformed);
        }
        let key = slice_range(src, line_start, eq);
        let value = slice_range(src, eq + 1, line_end);
        if bytes_eq(key.as_slice(), "name".as_bytes()) {
            name = Some(value);
        } else if bytes_eq(key.as_slice(), "region".as_bytes()) {
            match parse_region(value.as_slice()) {
                Some(reg) => regions.push(reg),
                None => {
                    return Err(AlgorithmParseError::Malformed);
                },
            }
        } else if bytes_eq(key.as_slice(), "algorithm".as_bytes()) {
            if value.len() == 0 {
                return Err(AlgorithmParseError::Malformed);
            }
            match open {
                Some(blk) => raws.push(blk),
                None => {},
            }
            open = Some(RawBlock { name: value, raw: RawAlgorithm::new() });
        } else {
            let mut blk = match open {
                Some(b) => b,
                None => {
                    return Err(AlgorithmParseError::Malformed);
                },
            };
            if bytes_eq(key.as_slice(), "code".as_bytes()) {
                match parse_hex_bytes(value.as_slice()) {
                    Some(bytes) => {
                        blk.raw.code = Some(bytes);
                    },
                    None => {
                        return Err(AlgorithmParseError::Malformed);
                    },
                }
            } else if bytes_eq(key.as_slice(), "double_buffer".as_bytes()) {
                blk.raw.double_buffer = value.len() == 1 && value[0] == 0x31u8;
            } else {
                let num = match parse_u32(value.as_slice()) {
                    Some(v) => v,
                    None => {
                        return Err(AlgorithmParseError::Malformed);
                    },
                };
                if bytes_eq(key.as_slice(), "load_address".as_bytes()) {
                    blk.raw.load_address = Some(num);
                } else if bytes_eq(key.as_slice(), "init".as_bytes()) {
                    blk.raw.init = Some(num);
                } else if bytes_eq(key.as_slice(), "uninit".as_bytes()) {
                    blk.raw.uninit = Some(num);
                } else if bytes_eq(key.as_slice(), "erase_sector".as_bytes()) {
                    blk.raw.erase_sector = Some(num);
                } else if bytes_eq(key.as_slice(), "program_page".as_bytes()) {
                    blk.raw.program_page = Some(num);
                } else if bytes_eq(key.as_slice(), "erase_all".as_bytes()) {
                    blk.raw.erase_all = Some(num);
                } else if bytes_eq(key.as_slice(), "page_size".as_bytes()) {
                    blk.raw.page_size = Some(num);
                } else if bytes_eq(key.as_slice(), "sector_size".as_bytes()) {
                    blk.raw.sector_size = Some(num);
                } else if bytes_eq(key.as_slice(), "stack_top".as_bytes()) {
                    blk.raw.stack_top = Some(num);
                } else if bytes_eq(key.as_slice(), "buffer".as_bytes()) {
                    blk.raw.buffer_address = Some(num);
                } else {
                    return Err(AlgorithmParseError::Malformed);
                }
            }
            open = Some(blk);
        }
    }
    match open {
        Some(blk) => raws.push(blk),
        None => {},
    }
    let target_name = match name {
        Some(v) => v,
        None => {
            return Err(AlgorithmParseError::Malformed);
        },
    };
    Ok(RawDescriptor { name: target_name, regions, blocks: raws })
}

/// Builds the validated target descriptor from scanned raw parts. The
/// region list must be well formed, and every block must assemble; the
/// first failing block's outcome, exactly as `spec_block_outcome` ranks
/// it, is the error, so a block missing a mandatory entry point is
/// rejected as exactly that missing function, identically on every
/// attempt, and no offset is ever invented.
pub fn assemble_descriptor(d: RawDescriptor) -> (r: Result<TargetDescriptor, AlgorithmParseError>)
    ensures
        match r {
            Ok(td) => {
                &&& regions_wf(d.regions@)
                &&& td.wf()
                &&& td.name@ == d.name@
                &&& td.memory_map.regions() == d.regions@
                &&& td.flash_algorithms@.len() == d.blocks@.len()
                &&& forall|q: int|
                    0 <= q < d.blocks@.len() ==> (#[trigger] td.flash_algorithms@[q]).name@
                        == d.blocks@[q].name@ && raw_matches(
                        d.blocks@[q].raw,
                        td.flash_algorithms@[q].algorithm,
                    ) && spec_block_outcome(d.blocks@[q].raw, d.regions@) is Ok
            },
            Err(e) => {
                if !regions_wf(d.regions@) {
                    e == AlgorithmParseError::InvalidLayout(LayoutIssue::RegionsOverlap)
                } else {
                    exists|q: int|
                        0 <= q < d.blocks@.len() && #[trigger] spec_block_outcome(
                            d.blocks@[q].raw,
                            d.regions@,
                        ) == Err::<(), AlgorithmParseError>(e) && (forall|p: int|
                            0 <= p < q ==> spec_block_outcome(d.blocks@[p].raw, d.regions@) is Ok)
                }
            },
        },
{
    let RawDescriptor { name: dname, regions: dregions, blocks: dblocks } = d;
    let ghost gregs = dregions@;
    let ghost all = dblocks@;
    let map = match MemoryMap::new(dregions) {
        Some(m) => m,
        None => {
            return Err(AlgorithmParseError::InvalidLayout(LayoutIssue::RegionsOverlap));
        },
    };
    let mut rest = dblocks;
    let mut done: Vec<NamedAlgorithm> = Vec::new();
    proof {
        assert(rest@ =~= all.subrange(0, all.len() as int));
    }
    while rest.len() > 0
        invariant
            map.wf(),
            map.regions() == gregs,
            gregs == d.regions@,
            all == d.blocks@,
            done@.len() + rest@.len() == all.len(),
            rest@ == all.subrange(done@.len() as int, all.len() as int),
            forall|q: int|
                0 <= q < done@.len() ==> (#[trigger] done@[q]).name@ == all[q].name@
                    && raw_matches(all[q].raw, done@[q].algorithm) && spec_block_outcome(
                    all[q].raw,
                    gregs,
                ) is Ok && done@[q].algorithm.geometry_wf() && done@[q].algorithm.placed_wf(map),
        decreases rest@.len(),
    {
        let ghost k = done@.len() as int;
        let blk = rest.remove(0);
        proof {
            assert(all.subrange(k, all.len() as int)[0] == all[k]);
            assert(blk == all[k]);
            assert(rest@ =~= all.subrange(k + 1, all.len() as int));
        }
        match assemble_algorithm(blk.raw, &map) {
            Ok(alg) => {
                done.push(NamedAlgorithm { name: blk.name, algorithm: alg });
            },
            Err(e) => {
                proof {
                    assert(regions_wf(gregs));
                    assert(spec_block_outcome(all[k].raw, gregs) == Err::<
                        (),
                        AlgorithmParseError,
                    >(e));
                    assert forall|p: int| 0 <= p < k implies spec_block_outcome(
                        all[p].raw,
                        gregs,
                    ) is Ok by {
                        assert(done@[p].name@ == all[p].name@);
                    }
                    assert(exists|q: int|
                        0 <= q < all.len() && #[trigger] spec_block_outcome(all[q].raw, gregs)
                            == Err::<(), AlgorithmParseError>(e) && (forall|p: int|
                            0 <= p < q ==> spec_block_outcome(all[p].raw, gregs) is Ok));
                }
                return Err(e);
            },
        }
    }
    proof {
        assert(done@.len() == all.len());
    }
    Ok(TargetDescriptor { name: dname, memory_map: map, flash_algorithms: done })
}

/// Parses descriptor text into a validated target descriptor: scan the
/// raw parts, then assemble them. The assembly stage's outcome is
/// exact, so a scanned block missing a mandatory entry point fails as
/// exactly that missing function, identically on every attempt; every
/// other rejection is `Malformed` ill-shaped text or a ranked layout
/// issue.
pub fn parse_text(src: &[u8]) -> (r: Result<TargetDescriptor, AlgorithmParseError>)
    ensures
        r matches Ok(td) ==> td.wf(),
        r matches Err(AlgorithmParseError::MissingFunction(f)) ==> f == FlashRoutine::ProgramPage
            || f == FlashRoutine::EraseSector,
{
    let d = match scan_text(src) {
        Ok(d) => d,
        Err(e) => {
            return Err(e);
        },
    };
    let ghost gregs = d.regions@;
    let ghost gblocks = d.blocks@;
    match assemble_descriptor(d) {
        Ok(td) => Ok(td),
        Err(e) => {
            proof {
                if regions_wf(gregs) {
                    let q = choose|q: int|
                        0 <= q < gblocks.len() && #[trigger] spec_block_outcome(
                            gblocks[q].raw,
                            gregs,
                        ) == Err::<(), AlgorithmParseError>(e) && (forall|p: int|
                            0 <= p < q ==> spec_block_outcome(gblocks[p].raw, gregs) is Ok);
                    assert(spec_block_outcome(gblocks[q].raw, gregs) == Err::<
                        (),
                        AlgorithmParseError,
                    >(e));
                }
            }
            Err(e)
        },
    }
}

/// Copies `src[start..end]` out.
fn slice_range(src: &[u8], start: usize, end: usize) -> (r: Vec<u8>)
    requires
        0 <= start <= end <= src@.len(),
    ensures
        r@ == src@.subrange(start as int, end as int),
{
    let mut out: Vec<u8> = Vec::new();
    let mut i: usize = start;
    while i < end
        invariant
            0 <= start <= i <= end <= src@.len(),
            out@ == src@.subrange(start as int, i as int),
        decreases end - i,
    {
        let ghost prev = out@;
        out.push(src[i]);
        proof {
            assert(out@ =~= src@.subrange(start as int, i + 1));
        }
        i += 1;
    }
    out
}

/// Parses `flash:<start>:<size>`, `ram:...` or `external:...`.
fn parse_region(v: &[u8]) -> (r: Option<MemoryRegion>) {
    // find the two ':' separators
    let n = v.len();
    let mut c1: usize = 0;
    while c1 < n && v[c1] != 0x3Au8
        invariant
            n == v@.len(),
            0 <= c1 <= n,
        decreases n - c1,
    {
        c1 += 1;
    }
    if c1 == n {
        return None;
    }
    let mut c2: usize = c1 + 1;
    while c2 < n && v[c2] != 0x3Au8
        invariant
            n == v@.len(),
            c1 < c2 <= n,
        decreases n - c2,
    {
        c2 += 1;
    }
    if c2 == n {
        return None;
    }
    let kind_bytes = slice_range(v, 0, c1);
    let start_bytes = slice_range(v, c1 + 1, c2);
    let size_bytes = slice_range(v, c2 + 1, n);
    let kind = if bytes_eq(kind_bytes.as_slice(), "flash".as_bytes()) {
        RegionKind::Flash
    } else if bytes_eq(kind_bytes.as_slice(), "ram".as_bytes()) {
        RegionKind::Ram
    } else if bytes_eq(kind_bytes.as_slice(), "external".as_bytes()) {
        RegionKind::External
    } else {
        return None;
    };
    let start = match parse_u32(start_bytes.as_slice()) {
        Some(x) => x,
        None => {
            return None;
        },
    };
    let size = match parse_u32(size_bytes.as_slice()) {
        Some(x) => x,
        None => {
            return None;
        },
    };
    Some(MemoryRegion { start, size, kind })
}

} // verus!
