//! The validated descriptor model: a flash algorithm's geometry and entry
//! points, and the target descriptor that owns algorithms and a memory map.

use vstd::prelude::*;

use crate::errors::AlgorithmParseError;
use crate::errors::LayoutIssue;
use crate::memory::MemoryMap;
use crate::memory::MemoryRegion;
use crate::memory::regions_in_ram;

verus! {

/// Compares two byte strings.
pub fn bytes_eq(a: &[u8], b: &[u8]) -> (r: bool)
    ensures
        r == (a@ == b@),
{
    if a.len() != b.len() {
        proof {
            assert(a@.len() != b@.len());
        }
        return false;
    }
    let n = a.len();
    let mut i: usize = 0;
    while i < n
        invariant
            n == a@.len() == b@.len(),
            0 <= i <= n,
            forall|k: int| 0 <= k < i ==> a@[k] == b@[k],
        decreases n - i,
    {
        if a[i] != b[i] {
            return false;
        }
        i += 1;
    }
    proof {
        assert(a@ =~= b@);
    }
    true
}

/// A relocatable flash algorithm: code to load into target RAM, the
/// offsets of its well-known routines, and its programming geometry.
#[derive(Clone, Debug)]
pub struct FlashAlgorithm {
    /// The machine code image, loaded at `load_address`.
    pub code: Vec<u8>,
    /// Where the code image is placed in target RAM.
    pub load_address: u32,
    /// Offset of the optional `Init` routine inside `code`.
    pub init: Option<u32>,
    /// Offset of the optional `UnInit` routine inside `code`.
    pub uninit: Option<u32>,
    /// Offset of the mandatory `EraseSector` routine inside `code`.
    pub erase_sector: u32,
    /// Offset of the mandatory `ProgramPage` routine inside `code`.
    pub program_page: u32,
    /// Offset of the optional `EraseChip` routine inside `code`.
    pub erase_all: Option<u32>,
    /// The minimum programmable unit, in bytes.
    pub page_size: u32,
    /// The minimum erasable unit, in bytes; a multiple of `page_size`.
    pub sector_size: u32,
    /// Initial stack pointer for routine calls; lies in target RAM.
    pub stack_top: u32,
    /// Start of the RAM buffer that pages are staged into.
    pub buffer_address: u32,
    /// Whether the descriptor declares support for double buffering.
    pub double_buffer: bool,
}

impl FlashAlgorithm {
    /// The geometry and code shape invariants that do not depend on the
    /// owning target's memory map.
    pub open spec fn geometry_wf(self) -> bool {
        &&& self.page_size > 0
        &&& self.sector_size > 0
        &&& self.sector_size % self.page_size == 0
        &&& 0x1_0000_0000int % (self.sector_size as int) == 0
        &&& self.code@.len() > 0
        &&& self.code@.len() % 4 == 0
        &&& self.load_address + self.code@.len() <= 0x1_0000_0000
        &&& self.erase_sector < self.code@.len()
        &&& self.program_page < self.code@.len()
        &&& (self.init is Some ==> self.init->0 < self.code@.len())
        &&& (self.uninit is Some ==> self.uninit->0 < self.code@.len())
        &&& (self.erase_all is Some ==> self.erase_all->0 < self.code@.len())
    }

    /// How many bytes of staging buffer the algorithm needs.
    pub open spec fn spec_buffer_len(self) -> int {
        if self.double_buffer {
            2 * self.page_size
        } else {
            self.page_size as int
        }
    }

    /// The placement invariants against the owning target's memory map:
    /// stack and staging buffer lie in RAM.
    pub open spec fn placed_wf(self, map: MemoryMap) -> bool {
        &&& map.spec_in_ram(self.stack_top as int)
        &&& self.buffer_address + self.spec_buffer_len() <= 0x1_0000_0000
        &&& map.spec_in_ram(self.buffer_address as int)
        &&& map.spec_in_ram(self.buffer_address + self.spec_buffer_len() - 1)
    }

    /// The checks `validate` makes, in order, against a region list;
    /// the first violated one names the layout issue.
    pub open spec fn spec_validate_in(self, regs: Seq<MemoryRegion>) -> Result<
        (),
        AlgorithmParseError,
    > {
        if self.page_size == 0 {
            Err(AlgorithmParseError::InvalidLayout(LayoutIssue::PageSizeZero))
        } else if !(self.sector_size > 0 && self.sector_size % self.page_size == 0
            && 0x1_0000_0000int % (self.sector_size as int) == 0) {
            Err(AlgorithmParseError::InvalidLayout(LayoutIssue::SectorGeometry))
        } else if !(self.code@.len() > 0 && self.code@.len() % 4 == 0) {
            Err(AlgorithmParseError::InvalidLayout(LayoutIssue::CodeShape))
        } else if !(self.load_address + self.code@.len() <= 0x1_0000_0000) {
            Err(AlgorithmParseError::InvalidLayout(LayoutIssue::CodeBeyondAddressSpace))
        } else if !(self.erase_sector < self.code@.len() && self.program_page < self.code@.len()
            && (self.init is Some ==> self.init->0 < self.code@.len()) && (self.uninit is Some
            ==> self.uninit->0 < self.code@.len()) && (self.erase_all is Some ==> self.erase_all->0
            < self.code@.len())) {
            Err(AlgorithmParseError::InvalidLayout(LayoutIssue::EntryOutsideCode))
        } else if !regions_in_ram(regs, self.stack_top as int) {
            Err(AlgorithmParseError::InvalidLayout(LayoutIssue::StackOutsideRam))
        } else if !(self.buffer_address + self.spec_buffer_len() <= 0x1_0000_0000 && regions_in_ram(
            regs,
            self.buffer_address as int,
        ) && regions_in_ram(regs, self.buffer_address + self.spec_buffer_len() - 1)) {
            Err(AlgorithmParseError::InvalidLayout(LayoutIssue::BufferOutsideRam))
        } else {
            Ok(())
        }
    }

    /// The checks `validate` makes, in order; the first violated one names
    /// the layout issue.
    pub open spec fn spec_validate(self, map: MemoryMap) -> Result<(), AlgorithmParseError> {
        self.spec_validate_in(map.regions())
    }

    /// Checks every invariant of the algorithm against the owning
    /// target's memory map; `Ok` exactly when all of them hold.
    pub fn validate(&self, map: &MemoryMap) -> (r: Result<(), AlgorithmParseError>)
        requires
            map.wf(),
        ensures
            r == self.spec_validate(*map),
            r is Ok <==> self.geometry_wf() && self.placed_wf(*map),
    {
        if self.page_size == 0 {
            return Err(AlgorithmParseError::InvalidLayout(LayoutIssue::PageSizeZero));
        }
        if !(self.sector_size > 0 && self.sector_size % self.page_size == 0 && 0x1_0000_0000u64
            % self.sector_size as u64 == 0) {
            return Err(AlgorithmParseError::InvalidLayout(LayoutIssue::SectorGeometry));
        }
        if !(self.code.len() > 0 && self.code.len() % 4 == 0) {
            return Err(AlgorithmParseError::InvalidLayout(LayoutIssue::CodeShape));
        }
        if !(self.code.len() as u64 <= 0x1_0000_0000u64 && self.load_address as u64
            + self.code.len() as u64 <= 0x1_0000_0000u64) {
            return Err(AlgorithmParseError::InvalidLayout(LayoutIssue::CodeBeyondAddressSpace));
        }
        let code_len = self.code.len() as u64;
        let entries_ok = (self.erase_sector as u64) < code_len && (self.program_page as u64)
            < code_len && (match self.init {
            Some(o) => (o as u64) < code_len,
            None => true,
        }) && (match self.uninit {
            Some(o) => (o as u64) < code_len,
            None => true,
        }) && (match self.erase_all {
            Some(o) => (o as u64) < code_len,
            None => true,
        });
        if !entries_ok {
            return Err(AlgorithmParseError::InvalidLayout(LayoutIssue::EntryOutsideCode));
        }
        if !map.in_ram(self.stack_top) {
            return Err(AlgorithmParseError::InvalidLayout(LayoutIssue::StackOutsideRam));
        }
        let buffer_len: u64 = if self.double_buffer {
            2 * self.page_size as u64
        } else {
            self.page_size as u64
        };
        let buffer_ok = self.buffer_address as u64 + buffer_len <= 0x1_0000_0000u64
            && map.in_ram(self.buffer_address) && map.in_ram(
            ((self.buffer_address as u64 + buffer_len - 1) as u32),
        );
        if !buffer_ok {
            return Err(AlgorithmParseError::InvalidLayout(LayoutIssue::BufferOutsideRam));
        }
        Ok(())
    }
}

/// A named flash algorithm owned by a target descriptor.
#[derive(Clone, Debug)]
pub struct NamedAlgorithm {
    pub name: Vec<u8>,
    pub algorithm: FlashAlgorithm,
}

/// A chip's validated description: its memory map and the flash
/// algorithms it ships, keyed by name. Immutable once parsed.
#[derive(Clone, Debug)]
pub struct TargetDescriptor {
    pub name: Vec<u8>,
    pub memory_map: MemoryMap,
    pub flash_algorithms: Vec<NamedAlgorithm>,
}

impl TargetDescriptor {
    pub open spec fn wf(self) -> bool {
        &&& self.memory_map.wf()
        &&& forall|i: int|
            0 <= i < self.flash_algorithms@.len() ==> (
            #[trigger] self.flash_algorithms@[i]).algorithm.geometry_wf()
                && self.flash_algorithms@[i].algorithm.placed_wf(self.memory_map)
    }

    /// Looks the named algorithm up; `Some` exactly when the name is
    /// present.
    pub fn algorithm_named(&self, name: &[u8]) -> (r: Option<&FlashAlgorithm>)
        ensures
            match r {
                Some(alg) => exists|i: int|
                    0 <= i < self.flash_algorithms@.len() && (
                    #[trigger] self.flash_algorithms@[i]).name@ == name@
                        && self.flash_algorithms@[i].algorithm == *alg,
                None => forall|i: int|
                    0 <= i < self.flash_algorithms@.len() ==> (
                    #[trigger] self.flash_algorithms@[i]).name@ != name@,
            },
    {
        let n = self.flash_algorithms.len();
        let mut i: usize = 0;
        while i < n
            invariant
                n == self.flash_algorithms@.len(),
                0 <= i <= n,
                forall|k: int|
                    0 <= k < i ==> (#[trigger] self.flash_algorithms@[k]).name@ != name@,
            decreases n - i,
        {
            let entry = &self.flash_algorithms[i];
            if bytes_eq(entry.name.as_slice(), name) {
                return Some(&entry.algorithm);
            }
            i += 1;
        }
        None
    }
}

} // verus!
