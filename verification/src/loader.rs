//! The flash loader: the protocol state machine that places a flash
//! algorithm in target RAM and drives its routines over the memory
//! interface to realize a programming plan.

use vstd::prelude::*;

use crate::algorithm::FlashAlgorithm;
use crate::builder::FlashSector;
use crate::builder::plan_loadable;
use crate::config::Config;
use crate::errors::FlashError;
use crate::mi::MemoryInterface;
use crate::mi::REG_LR;
use crate::mi::REG_PC;
use crate::mi::REG_R0;
use crate::mi::REG_SP;
use crate::mi::RETURN_SENTINEL;

verus! {

/// Where the loader stands in its protocol.
#[derive(Clone, Copy, PartialEq, Eq, Structural, Debug)]
pub enum LoaderPhase {
    Idle,
    AlgorithmLoaded,
    Initialized,
    Erasing,
    Programming,
    Verifying,
    Done,
    Failed,
}

/// The loader: `Idle` → `AlgorithmLoaded` → `Initialized` →
/// (`Erasing` | `Programming`)* → `Verifying` → `Done`, with `Failed`
/// reachable from every non-terminal phase.
pub struct FlashLoader {
    pub phase: LoaderPhase,
}

/// Whether the plan holds a sector starting at the address.
pub open spec fn plan_has_sector_addr(plan: Seq<FlashSector>, a: u32) -> bool {
    exists|k: int| 0 <= k < plan.len() && (#[trigger] plan[k]).address == a
}

/// Whether the plan holds a page starting at the address.
pub open spec fn plan_has_page_addr(plan: Seq<FlashSector>, a: u32) -> bool {
    exists|k: int, p: int|
        0 <= k < plan.len() && 0 <= p < plan[k].pages@.len() && (
        #[trigger] plan[k].pages@[p]).address == a
}

/// The address names a byte of a planned page whose value in the
/// memory `m` differs from the payload the plan asks for there.
pub open spec fn plan_mismatch_at(plan: Seq<FlashSector>, m: Map<u32, u8>, a: u32) -> bool {
    exists|k: int, p: int, o: int|
        #![trigger plan[k].pages@[p].data@[o]]
        0 <= k < plan.len() && 0 <= p < plan[k].pages@.len() && 0 <= o
            < plan[k].pages@[p].data@.len() && plan[k].pages@[p].address + o == a && m[a]
            != plan[k].pages@[p].data@[o]
}

/// Calls one routine of the loaded algorithm: arguments in `r0..r2`,
/// the completion sentinel in `lr`, the entry in `pc`, then resume and
/// poll until the core halts or the poll budget runs out. The halted
/// core's `r0` is the routine's status code.
fn call_function<M: MemoryInterface>(
    mi: &mut M,
    alg: &FlashAlgorithm,
    offset: u32,
    a0: u32,
    a1: u32,
    a2: u32,
    err_addr: u32,
    timeout_polls: u32,
) -> (r: Result<u32, FlashError>)
    requires
        alg.geometry_wf(),
        offset < alg.code@.len(),
        timeout_polls >= 1,
    ensures
        match r {
            Ok(status) => !final(mi).running() && status == final(mi).reg()[REG_R0],
            Err(e) => match e {
                FlashError::Timeout(a) => a == err_addr && final(mi).running(),
                FlashError::ProbeLost(_) => true,
                _ => false,
            },
        },
{
    match mi.write_register(REG_R0, a0) {
        Ok(()) => {},
        Err(e) => {
            return Err(FlashError::ProbeLost(e));
        },
    }
    match mi.write_register(1, a1) {
        Ok(()) => {},
        Err(e) => {
            return Err(FlashError::ProbeLost(e));
        },
    }
    match mi.write_register(2, a2) {
        Ok(()) => {},
        Err(e) => {
            return Err(FlashError::ProbeLost(e));
        },
    }
    match mi.write_register(REG_LR, RETURN_SENTINEL) {
        Ok(()) => {},
        Err(e) => {
            return Err(FlashError::ProbeLost(e));
        },
    }
    match mi.write_register(REG_PC, alg.load_address + offset) {
        Ok(()) => {},
        Err(e) => {
            return Err(FlashError::ProbeLost(e));
        },
    }
    match mi.resume() {
        Ok(()) => {},
        Err(e) => {
            return Err(FlashError::ProbeLost(e));
        },
    }
    let mut polls: u32 = 0;
    while polls < timeout_polls
        invariant
            polls >= 1 ==> mi.running(),
        decreases timeout_polls - polls,
    {
        match mi.is_running() {
            Ok(true) => {},
            Ok(false) => {
                match mi.read_register(REG_R0) {
                    Ok(status) => {
                        return Ok(status);
                    },
                    Err(e) => {
                        return Err(FlashError::ProbeLost(e));
                    },
                }
            },
            Err(e) => {
                return Err(FlashError::ProbeLost(e));
            },
        }
        polls += 1;
    }
    Err(FlashError::Timeout(err_addr))
}

/// Calls the optional `UnInit` routine; its own failure is swallowed,
/// so it never masks the error that led here.
fn best_effort_uninit<M: MemoryInterface>(mi: &mut M, alg: &FlashAlgorithm, cfg: &Config)
    requires
        alg.geometry_wf(),
        cfg.wf(),
{
    match alg.uninit {
        Some(off) => {
            match call_function(mi, alg, off, 0, 0, 0, 0, cfg.timeout_polls) {
                _ => {},
            }
        },
        None => {},
    }
}

impl FlashLoader {
    pub fn new() -> (r: FlashLoader)
        ensures
            r.phase == LoaderPhase::Idle,
    {
        FlashLoader { phase: LoaderPhase::Idle }
    }

    /// Writes the algorithm's code image to its load address and sets
    /// the stack pointer.
    pub fn load_algorithm<M: MemoryInterface>(
        &mut self,
        mi: &mut M,
        alg: &FlashAlgorithm,
    ) -> (r: Result<(), FlashError>)
        requires
            alg.geometry_wf(),
        ensures
            match r {
                Ok(()) => final(self).phase == LoaderPhase::AlgorithmLoaded && (forall|i: int|
                    0 <= i < alg.code@.len() ==> final(mi).mem()[(alg.load_address + i) as u32]
                        == alg.code@[i]) && final(mi).reg()[REG_SP] == alg.stack_top,
                Err(e) => final(self).phase == LoaderPhase::Failed && e matches
                    FlashError::ProbeLost(_),
            },
    {
        match mi.write_block(alg.load_address, alg.code.as_slice()) {
            Ok(()) => {},
            Err(e) => {
                self.phase = LoaderPhase::Failed;
                return Err(FlashError::ProbeLost(e));
            },
        }
        match mi.write_register(REG_SP, alg.stack_top) {
            Ok(()) => {},
            Err(e) => {
                self.phase = LoaderPhase::Failed;
                return Err(FlashError::ProbeLost(e));
            },
        }
        self.phase = LoaderPhase::AlgorithmLoaded;
        Ok(())
    }

    /// Runs the whole plan as one transaction: load, init, erase and
    /// program every sector in order, uninit, then verify. Any probe
    /// error, timeout or non-zero routine status aborts the remaining
    /// sectors at once; `UnInit` is still attempted, and the loader
    /// ends `Failed`.
    #[verifier::rlimit(60)]
    pub fn run<M: MemoryInterface>(
        &mut self,
        mi: &mut M,
        alg: &FlashAlgorithm,
        plan: &Vec<FlashSector>,
        cfg: &Config,
    ) -> (r: Result<(), FlashError>)
        requires
            alg.geometry_wf(),
            cfg.wf(),
            alg.buffer_address + alg.page_size <= 0x1_0000_0000,
            plan_loadable(plan@, alg.page_size as int),
        ensures
            final(self).phase == (if r is Ok {
                LoaderPhase::Done
            } else {
                LoaderPhase::Failed
            }),
            r is Ok && cfg.verify ==> forall|k: int, p: int, o: int|
                #![trigger plan@[k].pages@[p].data@[o]]
                0 <= k < plan@.len() && 0 <= p < plan@[k].pages@.len() && 0 <= o
                    < plan@[k].pages@[p].data@.len() ==> final(mi).mem()[(plan@[k].pages@[p].address
                    + o) as u32] == plan@[k].pages@[p].data@[o],
            match r {
                Err(FlashError::AlgorithmError(code, a)) => code != 0 && (a == 0
                    || plan_has_sector_addr(plan@, a) || plan_has_page_addr(plan@, a)),
                Err(FlashError::Timeout(a)) => a == 0 || plan_has_sector_addr(plan@, a)
                    || plan_has_page_addr(plan@, a),
                Err(FlashError::VerifyFailed(a)) => cfg.verify && plan_mismatch_at(
                    plan@,
                    final(mi).mem(),
                    a,
                ),
                _ => true,
            },
    {
        match self.load_algorithm(mi, alg) {
            Ok(()) => {},
            Err(e) => {
                self.phase = LoaderPhase::Failed;
                return Err(e);
            },
        }
        match alg.init {
            Some(off) => {
                match call_function(mi, alg, off, 0, 0, 0, 0, cfg.timeout_polls) {
                    Ok(status) => {
                        if status != 0 {
                            best_effort_uninit(mi, alg, cfg);
                            self.phase = LoaderPhase::Failed;
                            return Err(FlashError::AlgorithmError(status, 0));
                        }
                    },
                    Err(e) => {
                        best_effort_uninit(mi, alg, cfg);
                        self.phase = LoaderPhase::Failed;
                        return Err(e);
                    },
                }
            },
            None => {},
        }
        self.phase = LoaderPhase::Initialized;
        let nsec = plan.len();
        let mut k: usize = 0;
        while k < nsec
            invariant
                alg.geometry_wf(),
                cfg.wf(),
                alg.buffer_address + alg.page_size <= 0x1_0000_0000,
                plan_loadable(plan@, alg.page_size as int),
                nsec == plan@.len(),
                0 <= k <= nsec,
            decreases nsec - k,
        {
            let sector = &plan[k];
            if sector.needs_erase {
                self.phase = LoaderPhase::Erasing;
                match call_function(
                    mi,
                    alg,
                    alg.erase_sector,
                    sector.address,
                    0,
                    0,
                    sector.address,
                    cfg.timeout_polls,
                ) {
                    Ok(status) => {
                        if status != 0 {
                            proof {
                                assert(plan@[k as int].address == sector.address);
                                assert(plan_has_sector_addr(plan@, sector.address));
                            }
                            best_effort_uninit(mi, alg, cfg);
                            self.phase = LoaderPhase::Failed;
                            return Err(FlashError::AlgorithmError(status, sector.address));
                        }
                    },
                    Err(e) => {
                        proof {
                            assert(plan@[k as int].address == sector.address);
                            assert(plan_has_sector_addr(plan@, sector.address));
                        }
                        best_effort_uninit(mi, alg, cfg);
                        self.phase = LoaderPhase::Failed;
                        return Err(e);
                    },
                }
            }
            let npage = sector.pages.len();
            let mut p: usize = 0;
            while p < npage
                invariant
                    alg.geometry_wf(),
                    cfg.wf(),
                    alg.buffer_address + alg.page_size <= 0x1_0000_0000,
                    plan_loadable(plan@, alg.page_size as int),
                    nsec == plan@.len(),
                    0 <= k < nsec,
                    npage == plan@[k as int].pages@.len(),
                    0 <= p <= npage,
                decreases npage - p,
            {
                self.phase = LoaderPhase::Programming;
                let page = &plan[k].pages[p];
                match mi.write_block(alg.buffer_address, page.data.as_slice()) {
                    Ok(()) => {},
                    Err(e) => {
                        best_effort_uninit(mi, alg, cfg);
                        self.phase = LoaderPhase::Failed;
                        return Err(FlashError::ProbeLost(e));
                    },
                }
                match call_function(
                    mi,
                    alg,
                    alg.program_page,
                    page.address,
                    alg.page_size,
                    alg.buffer_address,
                    page.address,
                    cfg.timeout_polls,
                ) {
                    Ok(status) => {
                        if status != 0 {
                            proof {
                                assert(plan@[k as int].pages@[p as int].address == page.address);
                                assert(plan_has_page_addr(plan@, page.address));
                            }
                            best_effort_uninit(mi, alg, cfg);
                            self.phase = LoaderPhase::Failed;
                            return Err(FlashError::AlgorithmError(status, page.address));
                        }
                    },
                    Err(e) => {
                        proof {
                            assert(plan@[k as int].pages@[p as int].address == page.address);
                            assert(plan_has_page_addr(plan@, page.address));
                        }
                        best_effort_uninit(mi, alg, cfg);
                        self.phase = LoaderPhase::Failed;
                        return Err(e);
                    },
                }
                p += 1;
            }
            k += 1;
        }
        // uninit on normal completion, before the read-back check
        best_effort_uninit(mi, alg, cfg);
        if cfg.verify {
            self.phase = LoaderPhase::Verifying;
            let ghost m0 = *mi;
            let mut k2: usize = 0;
            while k2 < nsec
                invariant
                    cfg.verify,
                    plan_loadable(plan@, alg.page_size as int),
                    nsec == plan@.len(),
                    0 <= k2 <= nsec,
                    *mi == m0,
                    forall|ki: int, pi: int, oi: int|
                        #![trigger plan@[ki].pages@[pi].data@[oi]]
                        0 <= ki < k2 && 0 <= pi < plan@[ki].pages@.len() && 0 <= oi
                            < plan@[ki].pages@[pi].data@.len() ==> mi.mem()[(
                        plan@[ki].pages@[pi].address + oi) as u32]
                            == plan@[ki].pages@[pi].data@[oi],
                decreases nsec - k2,
            {
                let npage2 = plan[k2].pages.len();
                let mut p2: usize = 0;
                while p2 < npage2
                    invariant
                        cfg.verify,
                        plan_loadable(plan@, alg.page_size as int),
                        nsec == plan@.len(),
                        0 <= k2 < nsec,
                        npage2 == plan@[k2 as int].pages@.len(),
                        0 <= p2 <= npage2,
                        *mi == m0,
                        forall|ki: int, pi: int, oi: int|
                            #![trigger plan@[ki].pages@[pi].data@[oi]]
                            0 <= ki < k2 && 0 <= pi < plan@[ki].pages@.len() && 0 <= oi
                                < plan@[ki].pages@[pi].data@.len() ==> mi.mem()[(
                            plan@[ki].pages@[pi].address + oi) as u32]
                                == plan@[ki].pages@[pi].data@[oi],
                        forall|pi: int, oi: int|
                            #![trigger plan@[k2 as int].pages@[pi].data@[oi]]
                            0 <= pi < p2 && 0 <= oi < plan@[k2 as int].pages@[pi].data@.len()
                                ==> mi.mem()[(plan@[k2 as int].pages@[pi].address + oi) as u32]
                                == plan@[k2 as int].pages@[pi].data@[oi],
                    decreases npage2 - p2,
                {
                    let page = &plan[k2].pages[p2];
                    let want_len = page.data.len();
                    let got = match mi.read_block(page.address, want_len) {
                        Ok(v) => v,
                        Err(e) => {
                            self.phase = LoaderPhase::Failed;
                            return Err(FlashError::ProbeLost(e));
                        },
                    };
                    let mut o: usize = 0;
                    while o < want_len
                        invariant
                            cfg.verify,
                            nsec == plan@.len(),
                            0 <= k2 < nsec,
                            npage2 == plan@[k2 as int].pages@.len(),
                            0 <= p2 < npage2,
                            *page == plan@[k2 as int].pages@[p2 as int],
                            want_len == plan@[k2 as int].pages@[p2 as int].data@.len(),
                            plan@[k2 as int].pages@[p2 as int].address + want_len
                                <= 0x1_0000_0000,
                            got@.len() == want_len,
                            forall|oi: int|
                                0 <= oi < want_len ==> got@[oi] == mi.mem()[(plan@[k2 as int].pages@[p2 as int].address
                                    + oi) as u32],
                            0 <= o <= want_len,
                            forall|oi: int|
                                0 <= oi < o ==> got@[oi] == plan@[k2 as int].pages@[p2 as int].data@[oi],
                        decreases want_len - o,
                    {
                        if got[o] != page.data[o] {
                            let bad = (page.address as u64 + o as u64) as u32;
                            proof {
                                assert(bad == plan@[k2 as int].pages@[p2 as int].address + o);
                                assert(mi.mem()[bad] == got@[o as int]);
                                assert(mi.mem()[bad] != plan@[k2 as int].pages@[p2 as int].data@[o as int]);
                                assert(plan_mismatch_at(plan@, mi.mem(), bad));
                            }
                            self.phase = LoaderPhase::Failed;
                            return Err(FlashError::VerifyFailed(bad));
                        }
                        o += 1;
                    }
                    proof {
                        assert forall|oi: int| 0 <= oi < want_len implies mi.mem()[(
                        plan@[k2 as int].pages@[p2 as int].address + oi) as u32]
                            == plan@[k2 as int].pages@[p2 as int].data@[oi] by {
                            assert(got@[oi] == mi.mem()[(plan@[k2 as int].pages@[p2 as int].address
                                + oi) as u32]);
                            assert(got@[oi] == plan@[k2 as int].pages@[p2 as int].data@[oi]);
                        }
                    }
                    p2 += 1;
                }
                proof {
                    assert forall|ki: int, pi: int, oi: int|
                        #![trigger plan@[ki].pages@[pi].data@[oi]]
                        0 <= ki < k2 + 1 && 0 <= pi < plan@[ki].pages@.len() && 0 <= oi
                            < plan@[ki].pages@[pi].data@.len() implies mi.mem()[(
                    plan@[ki].pages@[pi].address + oi) as u32] == plan@[ki].pages@[pi].data@[oi] by {
                        if ki == k2 {
                            assert(mi.mem()[(plan@[k2 as int].pages@[pi].address + oi) as u32]
                                == plan@[k2 as int].pages@[pi].data@[oi]);
                        }
                    }
                }
                k2 += 1;
            }
        }
        self.phase = LoaderPhase::Done;
        Ok(())
    }
}

} // verus!
