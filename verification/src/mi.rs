//! The memory interface: register/memory access and run control over a
//! debug probe, the seam between the engine and the physical transport.

use vstd::prelude::*;

use crate::errors::ProbeError;

verus! {

/// Register index of the first argument / status register.
pub const REG_R0: u32 = 0;

/// Register index of the stack pointer.
pub const REG_SP: u32 = 13;

/// Register index of the link register.
pub const REG_LR: u32 = 14;

/// Register index of the program counter.
pub const REG_PC: u32 = 15;

/// The return address written before each routine call; reaching it
/// tells the probe the routine has completed.
pub const RETURN_SENTINEL: u32 = 0xFFFF_FFFE;

/// A half word assembled little-endian from two bytes of target memory.
pub open spec fn le_half(m: Map<u32, u8>, addr: int) -> u16 {
    (m[addr as u32] + 0x100 * m[(addr + 1) as u32]) as u16
}

/// A word assembled little-endian from four bytes of target memory.
pub open spec fn le_word(m: Map<u32, u8>, addr: int) -> u32 {
    (m[addr as u32] + 0x100 * m[(addr + 1) as u32] + 0x1_0000 * m[(addr + 2) as u32]
        + 0x100_0000 * m[(addr + 3) as u32]) as u32
}

/// Uniform access to a target through a debug probe: byte, half-word,
/// word and block transfers, core registers, and run control.
///
/// The views `mem`, `reg` and `running` model the target's state as the
/// probe sees it. Reads leave the target untouched; writes change
/// exactly what they name; while the core is running, polling may
/// change anything, since the target itself is executing.
pub trait MemoryInterface: Sized {
    /// The target's memory, one byte per 32-bit address.
    spec fn mem(&self) -> Map<u32, u8>;

    /// The core registers, by index.
    spec fn reg(&self) -> Map<u32, u32>;

    /// Whether the core is running.
    spec fn running(&self) -> bool;

    fn read_u8(&mut self, addr: u32) -> (r: Result<u8, ProbeError>)
        ensures
            *final(self) == *old(self),
            r matches Ok(v) ==> v == old(self).mem()[addr],
    ;

    fn read_u16(&mut self, addr: u32) -> (r: Result<u16, ProbeError>)
        requires
            addr + 2 <= 0x1_0000_0000,
        ensures
            *final(self) == *old(self),
            r matches Ok(v) ==> v == le_half(old(self).mem(), addr as int),
    ;

    fn read_u32(&mut self, addr: u32) -> (r: Result<u32, ProbeError>)
        requires
            addr + 4 <= 0x1_0000_0000,
        ensures
            *final(self) == *old(self),
            r matches Ok(v) ==> v == le_word(old(self).mem(), addr as int),
    ;

    fn write_u8(&mut self, addr: u32, value: u8) -> (r: Result<(), ProbeError>)
        ensures
            r is Ok ==> final(self).mem() == old(self).mem().insert(addr, value)
                && final(self).reg() == old(self).reg() && final(self).running() == old(self).running(),
    ;

    fn write_u16(&mut self, addr: u32, value: u16) -> (r: Result<(), ProbeError>)
        requires
            addr + 2 <= 0x1_0000_0000,
        ensures
            r is Ok ==> final(self).mem() == old(self).mem().insert(
                addr,
                (value & 0xFF) as u8,
            ).insert((addr + 1) as u32, (value >> 8) as u8) && final(self).reg() == old(self).reg() && final(self).running() == old(self).running(),
    ;

    fn write_u32(&mut self, addr: u32, value: u32) -> (r: Result<(), ProbeError>)
        requires
            addr + 4 <= 0x1_0000_0000,
        ensures
            r is Ok ==> final(self).mem() == old(self).mem().insert(
                addr,
                (value & 0xFF) as u8,
            ).insert((addr + 1) as u32, ((value >> 8) & 0xFF) as u8).insert(
                (addr + 2) as u32,
                ((value >> 16) & 0xFF) as u8,
            ).insert((addr + 3) as u32, ((value >> 24) & 0xFF) as u8) && final(self).reg()
                == old(self).reg() && final(self).running() == old(self).running(),
    ;

    fn read_block(&mut self, addr: u32, len: usize) -> (r: Result<Vec<u8>, ProbeError>)
        requires
            addr + len <= 0x1_0000_0000,
        ensures
            *final(self) == *old(self),
            r matches Ok(v) ==> v@.len() == len && (forall|i: int|
                0 <= i < len ==> v@[i] == old(self).mem()[(addr + i) as u32]),
    ;

    fn write_block(&mut self, addr: u32, data: &[u8]) -> (r: Result<(), ProbeError>)
        requires
            addr + data@.len() <= 0x1_0000_0000,
        ensures
            r is Ok ==> (forall|i: int|
                0 <= i < data@.len() ==> final(self).mem()[(addr + i) as u32] == data@[i]) && (
            forall|a: u32|
                !(addr <= a < addr + data@.len()) ==> final(self).mem()[a] == old(self).mem()[a])
                && final(self).reg() == old(self).reg() && final(self).running() == old(self).running(),
    ;

    fn read_register(&mut self, id: u32) -> (r: Result<u32, ProbeError>)
        requires
            id < 17,
        ensures
            *final(self) == *old(self),
            r matches Ok(v) ==> v == old(self).reg()[id],
    ;

    fn write_register(&mut self, id: u32, value: u32) -> (r: Result<(), ProbeError>)
        requires
            id < 17,
        ensures
            r is Ok ==> final(self).reg() == old(self).reg().insert(id, value) && final(self).mem() == old(self).mem() && final(self).running() == old(self).running(),
    ;

    fn halt(&mut self) -> (r: Result<(), ProbeError>)
        ensures
            r is Ok ==> !final(self).running() && final(self).mem() == old(self).mem(),
    ;

    fn resume(&mut self) -> (r: Result<(), ProbeError>)
        ensures
            r is Ok ==> final(self).running(),
    ;

    /// One poll of the run state. While the target runs it is executing
    /// code, so a poll may change memory and registers.
    fn is_running(&mut self) -> (r: Result<bool, ProbeError>)
        ensures
            r matches Ok(b) ==> b == final(self).running(),
    ;

    /// Drives the reset line: `Some(level)` asserts or deasserts it,
    /// `None` pulses it. The target's state afterwards is the chip's
    /// own reset behaviour.
    fn reset(&mut self, assert_level: Option<bool>) -> (r: Result<(), ProbeError>);
}

} // verus!
