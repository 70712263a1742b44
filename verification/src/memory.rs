//! The target's memory layout: an ordered, non-overlapping set of regions
//! in the 32-bit address space.

use vstd::prelude::*;

verus! {

/// What a region of the target's address space is used for.
#[derive(Clone, Copy, PartialEq, Eq, Structural, Debug)]
pub enum RegionKind {
    Flash,
    Ram,
    External,
}

/// A contiguous region `[start, start + size)` of the target's
/// 32-bit address space.
#[derive(Clone, Copy, PartialEq, Eq, Structural, Debug)]
pub struct MemoryRegion {
    pub start: u32,
    pub size: u32,
    pub kind: RegionKind,
}

impl MemoryRegion {
    /// The region ends within the 32-bit address space and is not empty.
    pub open spec fn wf(self) -> bool {
        &&& self.size > 0
        &&& self.start + self.size <= 0x1_0000_0000
    }

    /// Whether the address lies inside the region.
    pub open spec fn spec_contains(self, addr: int) -> bool {
        self.start <= addr < self.start + self.size
    }

    pub fn contains(&self, addr: u32) -> (b: bool)
        requires
            self.wf(),
        ensures
            b == self.spec_contains(addr as int),
    {
        self.start <= addr && addr - self.start < self.size
    }
}

/// An ordered set of non-overlapping memory regions.
#[derive(Clone, Debug)]
pub struct MemoryMap {
    regions: Vec<MemoryRegion>,
}

/// Whether the address lies inside a RAM region of the list.
pub open spec fn regions_in_ram(regs: Seq<MemoryRegion>, addr: int) -> bool {
    exists|i: int|
        0 <= i < regs.len() && (#[trigger] regs[i]).kind == RegionKind::Ram
            && regs[i].spec_contains(addr)
}

/// The region list is well formed, sorted by start address, and pairwise
/// disjoint.
pub open spec fn regions_wf(regs: Seq<MemoryRegion>) -> bool {
    &&& forall|i: int| 0 <= i < regs.len() ==> (#[trigger] regs[i]).wf()
    &&& forall|i: int, j: int|
        #![trigger regs[i], regs[j]]
        0 <= i < j < regs.len() ==> regs[i].start + regs[i].size <= regs[j].start
}

impl MemoryMap {
    pub closed spec fn regions(self) -> Seq<MemoryRegion> {
        self.regions@
    }

    /// Regions are well formed, sorted by start address, and pairwise
    /// disjoint.
    pub open spec fn wf(self) -> bool {
        regions_wf(self.regions())
    }

    /// Whether the address lies inside a flash region of the map.
    pub open spec fn spec_in_flash(self, addr: int) -> bool {
        exists|i: int|
            0 <= i < self.regions().len() && (#[trigger] self.regions()[i]).kind
                == RegionKind::Flash && self.regions()[i].spec_contains(addr)
    }

    /// Whether every byte of `[addr, addr + len)` lies inside a flash
    /// region of the map.
    pub open spec fn spec_flash_covers(self, addr: int, len: int) -> bool {
        forall|a: int| addr <= a < addr + len ==> self.spec_in_flash(a)
    }

    /// Builds a map from a region list; rejects a list that is unsorted,
    /// overlapping, or holds an ill-formed region.
    pub fn new(regions: Vec<MemoryRegion>) -> (r: Option<MemoryMap>)
        ensures
            match r {
                Some(m) => m.wf() && m.regions() == regions@,
                None => !regions_wf(regions@),
            },
    {
        let n = regions.len();
        let mut i: usize = 0;
        while i < n
            invariant
                n == regions.len(),
                0 <= i <= n,
                forall|k: int| 0 <= k < i ==> (#[trigger] regions@[k]).wf(),
                forall|k: int, j: int|
                    #![trigger regions@[k], regions@[j]]
                    0 <= k < j < i ==> regions@[k].start + regions@[k].size
                        <= regions@[j].start,
            decreases n - i,
        {
            let reg = regions[i];
            if !(reg.size > 0 && reg.start as u64 + reg.size as u64 <= 0x1_0000_0000u64) {
                assert(!reg.wf());
                return None;
            }
            if i > 0 {
                let prev = regions[i - 1];
                if !(prev.start as u64 + prev.size as u64 <= reg.start as u64) {
                    return None;
                }
                assert forall|k: int| 0 <= k < i implies regions@[k].start + regions@[k].size
                    <= regions@[i as int].start by {
                    if k < i - 1 {
                        assert(regions@[k].start + regions@[k].size <= regions@[i - 1].start);
                    }
                }
            }
            i += 1;
        }
        Some(MemoryMap { regions })
    }

    /// Whether the address lies inside a flash region.
    pub fn in_flash(&self, addr: u32) -> (b: bool)
        requires
            self.wf(),
        ensures
            b == self.spec_in_flash(addr as int),
    {
        let n = self.regions.len();
        let mut i: usize = 0;
        while i < n
            invariant
                self.wf(),
                n == self.regions@.len(),
                0 <= i <= n,
                forall|k: int|
                    0 <= k < i ==> !((#[trigger] self.regions@[k]).kind == RegionKind::Flash
                        && self.regions@[k].spec_contains(addr as int)),
            decreases n - i,
        {
            let reg = self.regions[i];
            if reg.kind == RegionKind::Flash && reg.contains(addr) {
                return true;
            }
            i += 1;
        }
        false
    }

    /// Whether the address lies inside a RAM region.
    pub fn in_ram(&self, addr: u32) -> (b: bool)
        requires
            self.wf(),
        ensures
            b == self.spec_in_ram(addr as int),
    {
        let n = self.regions.len();
        let mut i: usize = 0;
        while i < n
            invariant
                self.wf(),
                n == self.regions@.len(),
                0 <= i <= n,
                forall|k: int|
                    0 <= k < i ==> !((#[trigger] self.regions@[k]).kind == RegionKind::Ram
                        && self.regions@[k].spec_contains(addr as int)),
            decreases n - i,
        {
            let reg = self.regions[i];
            if reg.kind == RegionKind::Ram && reg.contains(addr) {
                return true;
            }
            i += 1;
        }
        false
    }

    /// Whether the address lies inside a RAM region of the map.
    pub open spec fn spec_in_ram(self, addr: int) -> bool {
        regions_in_ram(self.regions(), addr)
    }

    /// The regions of the map, for callers that render or walk them.
    pub fn region_list(&self) -> (r: &Vec<MemoryRegion>)
        ensures
            r@ == self.regions(),
    {
        &self.regions
    }
}

} // verus!
