//! A simulated target behind the memory interface: a software model of
//! a chip with one flash window, one RAM window and a core that
//! "executes" the loaded flash routines. Tests drive the loader against
//! it; a wedged or failing target is simulated by configuration.

use vstd::prelude::*;

use crate::errors::Capability;
use crate::errors::ProbeError;
use crate::mi::MemoryInterface;

verus! {

/// What the simulated core was asked to run.
#[derive(Clone, Copy, PartialEq, Eq, Structural, Debug)]
enum PendingKind {
    Idle,
    Program,
    Erase,
    Plain,
}

/// How the simulated target is laid out and behaves.
pub struct SimConfig {
    pub flash_base: u32,
    pub flash_size: u32,
    pub ram_base: u32,
    pub ram_size: u32,
    /// Where the flash routines are loaded, and their offsets, so the
    /// simulator can recognise what it was asked to run.
    pub load_address: u32,
    pub program_offset: u32,
    pub erase_offset: u32,
    pub sector_size: u32,
    /// Polls a routine stays busy before reporting completion.
    pub polls_per_call: u32,
    /// A wedged target: routines never report completion.
    pub hang: bool,
    /// Status codes handed back by successive routine calls; exhausted
    /// entries read as zero.
    pub statuses: Vec<u32>,
    /// If set, programming quietly corrupts the byte at this address.
    pub corrupt: Option<u32>,
}

/// A vector holding `n` copies of the value.
fn filled<T: Copy>(n: usize, v: T) -> (r: Vec<T>)
    ensures
        r@.len() == n,
        forall|i: int| 0 <= i < n ==> r@[i] == v,
{
    let mut out: Vec<T> = Vec::new();
    let mut i: usize = 0;
    while i < n
        invariant
            out@.len() == i,
            0 <= i <= n,
            forall|k: int| 0 <= k < i ==> out@[k] == v,
        decreases n - i,
    {
        out.push(v);
        i += 1;
    }
    out
}

/// The simulated probe and target.
pub struct SimProbe {
    flash_base: u32,
    flash: Vec<u8>,
    ram_base: u32,
    ram: Vec<u8>,
    regs: Vec<u32>,
    running: bool,
    pending: PendingKind,
    polls_left: u32,
    next_status: usize,
    cfg_load_address: u32,
    cfg_program_offset: u32,
    cfg_erase_offset: u32,
    cfg_sector_size: u32,
    cfg_polls_per_call: u32,
    cfg_hang: bool,
    cfg_statuses: Vec<u32>,
    cfg_corrupt: Option<u32>,
    call_log: Vec<u32>,
}

impl SimProbe {
    /// The byte the simulated target holds at an address: flash, RAM,
    /// or the erased fill outside both.
    closed spec fn byte_spec(self, a: u32) -> u8 {
        if self.flash_base <= a && a - self.flash_base < self.flash@.len() {
            self.flash@[a - self.flash_base]
        } else if self.ram_base <= a && a - self.ram_base < self.ram@.len() {
            self.ram@[a - self.ram_base]
        } else {
            0xFF
        }
    }

    /// A fresh, halted target: flash reads as the erased fill, RAM is
    /// zeroed, and every core register starts at zero.
    pub fn new(cfg: SimConfig) -> (r: SimProbe)
        ensures
            !r.running(),
            forall|a: u32|
                cfg.flash_base <= a && a - cfg.flash_base < cfg.flash_size ==> r.mem()[a] == 0xFF,
            forall|a: u32|
                !(cfg.flash_base <= a && a - cfg.flash_base < cfg.flash_size) && (cfg.ram_base
                    <= a && a - cfg.ram_base < cfg.ram_size) ==> r.mem()[a] == 0,
            forall|a: u32|
                !(cfg.flash_base <= a && a - cfg.flash_base < cfg.flash_size) && !(cfg.ram_base
                    <= a && a - cfg.ram_base < cfg.ram_size) ==> r.mem()[a] == 0xFF,
            forall|i: u32| r.reg()[i] == 0,
    {
        SimProbe {
            flash_base: cfg.flash_base,
            flash: filled(cfg.flash_size as usize, 0xFFu8),
            ram_base: cfg.ram_base,
            ram: filled(cfg.ram_size as usize, 0u8),
            regs: filled(17, 0u32),
            running: false,
            pending: PendingKind::Idle,
            polls_left: 0,
            next_status: 0,
            cfg_load_address: cfg.load_address,
            cfg_program_offset: cfg.program_offset,
            cfg_erase_offset: cfg.erase_offset,
            cfg_sector_size: cfg.sector_size,
            cfg_polls_per_call: cfg.polls_per_call,
            cfg_hang: cfg.hang,
            cfg_statuses: cfg.statuses,
            cfg_corrupt: cfg.corrupt,
            call_log: Vec::new(),
        }
    }

    /// How many routine calls were started, for tests that check the
    /// loader stopped where it should.
    pub fn calls_made(&self) -> (r: &Vec<u32>) {
        &self.call_log
    }

    fn get_byte(&self, a: u32) -> (r: u8)
        ensures
            r == self.byte_spec(a),
    {
        if self.flash_base <= a && ((a - self.flash_base) as usize) < self.flash.len() {
            self.flash[(a - self.flash_base) as usize]
        } else if self.ram_base <= a && ((a - self.ram_base) as usize) < self.ram.len() {
            self.ram[(a - self.ram_base) as usize]
        } else {
            0xFF
        }
    }

    fn put_byte(&mut self, a: u32, v: u8) -> (r: bool)
        ensures
            r ==> final(self).mem() == old(self).mem().insert(a, v) && final(self).reg() == old(
                self,
            ).reg() && final(self).running() == old(self).running(),
            !r ==> *final(self) == *old(self),
    {
        if self.flash_base <= a && ((a - self.flash_base) as usize) < self.flash.len() {
            self.flash.set((a - self.flash_base) as usize, v);
            proof {
                assert(self.mem() =~= old(self).mem().insert(a, v));
                assert(self.reg() =~= old(self).reg());
            }
            true
        } else if self.ram_base <= a && ((a - self.ram_base) as usize) < self.ram.len() {
            self.ram.set((a - self.ram_base) as usize, v);
            proof {
                assert(self.mem() =~= old(self).mem().insert(a, v));
                assert(self.reg() =~= old(self).reg());
            }
            true
        } else {
            false
        }
    }

    /// Applies the pending routine's effect to the simulated chip and
    /// leaves its status code in `r0`.
    fn complete_call(&mut self)
        ensures
            !final(self).running(),
    {
        match self.pending {
            PendingKind::Program => {
                let dst: u32 = if self.regs.len() > 2 {
                    self.regs[0]
                } else {
                    0
                };
                let len: u32 = if self.regs.len() > 2 {
                    self.regs[1]
                } else {
                    0
                };
                let src: u32 = if self.regs.len() > 2 {
                    self.regs[2]
                } else {
                    0
                };
                let mut i: u32 = 0;
                while i < len
                    decreases len - i,
                {
                    if dst as u64 + i as u64 <= 0xFFFF_FFFFu64 && src as u64 + i as u64
                        <= 0xFFFF_FFFFu64 {
                        let b = self.get_byte(src + i);
                        self.put_byte(dst + i, b);
                    }
                    i += 1;
                }
                match self.cfg_corrupt {
                    Some(ca) => {
                        if dst <= ca && (ca as u64) < dst as u64 + len as u64 {
                            self.put_byte(ca, 0xA5);
                        }
                    },
                    None => {},
                }
            },
            PendingKind::Erase => {
                let dst: u32 = if self.regs.len() > 0 {
                    self.regs[0]
                } else {
                    0
                };
                let limit: u32 = self.cfg_sector_size;
                let mut i: u32 = 0;
                while i < limit
                    decreases limit - i,
                {
                    if dst as u64 + i as u64 <= 0xFFFF_FFFFu64 {
                        self.put_byte(dst + i, 0xFF);
                    }
                    i += 1;
                }
            },
            _ => {},
        }
        let status: u32 = if self.next_status < self.cfg_statuses.len() {
            let s = self.cfg_statuses[self.next_status];
            self.next_status += 1;
            s
        } else {
            0
        };
        if self.regs.len() > 0 {
            self.regs.set(0, status);
        }
        self.pending = PendingKind::Idle;
        self.running = false;
    }
}

impl MemoryInterface for SimProbe {
    closed spec fn mem(&self) -> Map<u32, u8> {
        Map::new(|a: u32| true, |a: u32| self.byte_spec(a))
    }

    closed spec fn reg(&self) -> Map<u32, u32> {
        Map::new(
            |i: u32| true,
            |i: u32|
                if i < self.regs@.len() {
                    self.regs@[i as int]
                } else {
                    0u32
                },
        )
    }

    closed spec fn running(&self) -> bool {
        self.running
    }

    fn read_u8(&mut self, addr: u32) -> (r: Result<u8, ProbeError>) {
        Ok(self.get_byte(addr))
    }

    fn read_u16(&mut self, addr: u32) -> (r: Result<u16, ProbeError>) {
        let b0 = self.get_byte(addr);
        let b1 = self.get_byte(addr + 1);
        Ok(b0 as u16 + 0x100 * (b1 as u16))
    }

    fn read_u32(&mut self, addr: u32) -> (r: Result<u32, ProbeError>) {
        let b0 = self.get_byte(addr);
        let b1 = self.get_byte(addr + 1);
        let b2 = self.get_byte(addr + 2);
        let b3 = self.get_byte(addr + 3);
        Ok(b0 as u32 + 0x100 * (b1 as u32) + 0x1_0000 * (b2 as u32) + 0x100_0000 * (b3 as u32))
    }

    fn write_u8(&mut self, addr: u32, value: u8) -> (r: Result<(), ProbeError>) {
        if self.put_byte(addr, value) {
            Ok(())
        } else {
            Err(ProbeError::TransportIo)
        }
    }

    fn write_u16(&mut self, addr: u32, value: u16) -> (r: Result<(), ProbeError>) {
        if !self.put_byte(addr, (value & 0xFF) as u8) {
            return Err(ProbeError::TransportIo);
        }
        if !self.put_byte(addr + 1, (value >> 8) as u8) {
            return Err(ProbeError::TransportIo);
        }
        Ok(())
    }

    fn write_u32(&mut self, addr: u32, value: u32) -> (r: Result<(), ProbeError>) {
        if !self.put_byte(addr, (value & 0xFF) as u8) {
            return Err(ProbeError::TransportIo);
        }
        if !self.put_byte(addr + 1, ((value >> 8) & 0xFF) as u8) {
            return Err(ProbeError::TransportIo);
        }
        if !self.put_byte(addr + 2, ((value >> 16) & 0xFF) as u8) {
            return Err(ProbeError::TransportIo);
        }
        if !self.put_byte(addr + 3, ((value >> 24) & 0xFF) as u8) {
            return Err(ProbeError::TransportIo);
        }
        Ok(())
    }

    fn read_block(&mut self, addr: u32, len: usize) -> (r: Result<Vec<u8>, ProbeError>) {
        let mut v: Vec<u8> = Vec::new();
        let mut i: usize = 0;
        while i < len
            invariant
                addr + len <= 0x1_0000_0000,
                0 <= i <= len,
                v@.len() == i,
                forall|j: int| 0 <= j < i ==> v@[j] == self.mem()[(addr + j) as u32],
            decreases len - i,
        {
            let b = self.get_byte(addr + i as u32);
            v.push(b);
            i += 1;
        }
        Ok(v)
    }

    fn write_block(&mut self, addr: u32, data: &[u8]) -> (r: Result<(), ProbeError>) {
        let n = data.len();
        let mut i: usize = 0;
        while i < n
            invariant
                addr + n <= 0x1_0000_0000,
                n == data@.len(),
                0 <= i <= n,
                forall|j: int| 0 <= j < i ==> self.mem()[(addr + j) as u32] == data@[j],
                forall|a: u32| !(addr <= a < addr + i) ==> self.mem()[a] == old(self).mem()[a],
                self.reg() == old(self).reg(),
                self.running() == old(self).running(),
            decreases n - i,
        {
            let ghost prev = self.mem();
            if !self.put_byte(addr + i as u32, data[i]) {
                return Err(ProbeError::TransportIo);
            }
            proof {
                assert(self.mem() == prev.insert((addr + i) as u32, data@[i as int]));
            }
            i += 1;
        }
        Ok(())
    }

    fn read_register(&mut self, id: u32) -> (r: Result<u32, ProbeError>) {
        if (id as usize) < self.regs.len() {
            Ok(self.regs[id as usize])
        } else {
            Ok(0)
        }
    }

    fn write_register(&mut self, id: u32, value: u32) -> (r: Result<(), ProbeError>) {
        if (id as usize) < self.regs.len() {
            self.regs.set(id as usize, value);
            proof {
                assert(self.reg() =~= old(self).reg().insert(id, value));
                assert(self.mem() =~= old(self).mem());
            }
            Ok(())
        } else {
            Err(ProbeError::Unsupported(Capability::Registers))
        }
    }

    fn halt(&mut self) -> (r: Result<(), ProbeError>) {
        self.running = false;
        proof {
            assert(self.mem() =~= old(self).mem());
        }
        Ok(())
    }

    fn resume(&mut self) -> (r: Result<(), ProbeError>) {
        let pc: u32 = if self.regs.len() > 15 {
            self.regs[15]
        } else {
            0
        };
        self.pending = if self.cfg_program_offset as u64 + self.cfg_load_address as u64
            <= 0xFFFF_FFFFu64 && pc == self.cfg_load_address + self.cfg_program_offset {
            PendingKind::Program
        } else if self.cfg_erase_offset as u64 + self.cfg_load_address as u64 <= 0xFFFF_FFFFu64
            && pc == self.cfg_load_address + self.cfg_erase_offset {
            PendingKind::Erase
        } else {
            PendingKind::Plain
        };
        self.polls_left = self.cfg_polls_per_call;
        self.call_log.push(pc);
        self.running = true;
        Ok(())
    }

    fn is_running(&mut self) -> (r: Result<bool, ProbeError>) {
        if !self.running {
            return Ok(false);
        }
        if self.cfg_hang {
            return Ok(true);
        }
        if self.polls_left > 0 {
            self.polls_left -= 1;
            return Ok(true);
        }
        self.complete_call();
        Ok(false)
    }

    fn reset(&mut self, assert_level: Option<bool>) -> (r: Result<(), ProbeError>) {
        match assert_level {
            Some(true) => {
                self.running = false;
            },
            Some(false) => {
                self.running = true;
            },
            None => {
                self.running = true;
            },
        }
        self.pending = PendingKind::Idle;
        Ok(())
    }
}

} // verus!
