//! The error taxonomy of the engine: transport, parse, staging, and
//! runtime execution failures are kept apart so that a caller can tell
//! which phase gave up, and nothing is retried silently.

use vstd::prelude::*;

verus! {

/// A capability a concrete probe family may lack.
#[derive(Clone, Copy, PartialEq, Eq, Structural, Debug)]
pub enum Capability {
    BlockRead,
    BlockWrite,
    Registers,
    RunControl,
    Reset,
}

/// A failure of the probe transport or its protocol.
#[derive(Clone, Copy, PartialEq, Eq, Structural, Debug)]
pub enum ProbeError {
    Timeout,
    TransportIo,
    ProtocolViolation,
    Unsupported(Capability),
}

/// The well-known entry points of a flash algorithm.
#[derive(Clone, Copy, PartialEq, Eq, Structural, Debug)]
pub enum FlashRoutine {
    Init,
    Uninit,
    EraseSector,
    ProgramPage,
    EraseAll,
}

/// Why a descriptor's layout cannot describe a usable algorithm.
#[derive(Clone, Copy, PartialEq, Eq, Structural, Debug)]
pub enum LayoutIssue {
    /// `page_size` is zero.
    PageSizeZero,
    /// `sector_size` is zero, not a multiple of `page_size`, or does not
    /// divide the 32-bit address space.
    SectorGeometry,
    /// The code image is empty or not word-aligned.
    CodeShape,
    /// The code image does not fit below the top of the address space.
    CodeBeyondAddressSpace,
    /// An entry point offset lies outside the code image.
    EntryOutsideCode,
    /// The stack top does not lie in a RAM region of the target.
    StackOutsideRam,
    /// The page staging buffer does not lie in a RAM region of the target.
    BufferOutsideRam,
    /// The memory regions overlap or are unsorted.
    RegionsOverlap,
}

/// A descriptor that cannot be turned into a flash algorithm.
#[derive(Clone, Copy, PartialEq, Eq, Structural, Debug)]
pub enum AlgorithmParseError {
    /// The text or object is not in the expected shape.
    Malformed,
    /// A mandatory entry point is absent; it is never given a default.
    MissingFunction(FlashRoutine),
    /// The descriptor parsed but its fields violate an invariant.
    InvalidLayout(LayoutIssue),
}

/// A set of write requests that cannot be staged.
#[derive(Clone, Copy, PartialEq, Eq, Structural, Debug)]
pub enum BuildError {
    /// Two requests disagree on the byte at this address.
    ConflictingData(u32),
    /// The run starting here, of this many bytes, has a byte outside
    /// every flash region.
    OutOfRange(u32, u64),
}

/// A failure while driving the algorithm on the target.
#[derive(Clone, Copy, PartialEq, Eq, Structural, Debug)]
pub enum FlashError {
    /// The routine called for this address never reported completion.
    Timeout(u32),
    /// The routine called for this address returned this non-zero status.
    AlgorithmError(u32, u32),
    /// Read-back after programming differed at this address.
    VerifyFailed(u32),
    /// The probe transport failed mid-run.
    ProbeLost(ProbeError),
}

/// A target name that the registry does not know.
#[derive(Clone, PartialEq, Eq, Debug)]
pub enum TargetSelectionError {
    UnknownTarget(Vec<u8>),
}

/// The umbrella error a session-level caller sees.
#[derive(Clone, PartialEq, Eq, Debug)]
pub enum Error {
    Parse(AlgorithmParseError),
    Build(BuildError),
    Flash(FlashError),
    Probe(ProbeError),
    TargetSelection(TargetSelectionError),
}

impl From<AlgorithmParseError> for Error {
    fn from(value: AlgorithmParseError) -> (r: Self) {
        Error::Parse(value)
    }
}

impl vstd::std_specs::convert::FromSpecImpl<AlgorithmParseError> for Error {
    open spec fn obeys_from_spec() -> bool {
        true
    }

    open spec fn from_spec(value: AlgorithmParseError) -> Self {
        Error::Parse(value)
    }
}

impl From<BuildError> for Error {
    fn from(value: BuildError) -> (r: Self) {
        Error::Build(value)
    }
}

impl vstd::std_specs::convert::FromSpecImpl<BuildError> for Error {
    open spec fn obeys_from_spec() -> bool {
        true
    }

    open spec fn from_spec(value: BuildError) -> Self {
        Error::Build(value)
    }
}

impl From<FlashError> for Error {
    fn from(value: FlashError) -> (r: Self) {
        Error::Flash(value)
    }
}

impl vstd::std_specs::convert::FromSpecImpl<FlashError> for Error {
    open spec fn obeys_from_spec() -> bool {
        true
    }

    open spec fn from_spec(value: FlashError) -> Self {
        Error::Flash(value)
    }
}

} // verus!
