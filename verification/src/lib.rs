//! Flash programming engine for on-chip debug probes.
//!
//! The crate models a target's memory layout, parses flash algorithm
//! descriptors, stages write requests into a sector-aligned programming
//! plan, and drives the algorithm's execution on the target through a
//! memory-interface abstraction.

mod algorithm;
mod builder;
mod config;
mod download;
mod errors;
mod loader;
mod memory;
mod mi;
mod parser;
mod registry;
mod sim;

pub use algorithm::FlashAlgorithm;
pub use algorithm::NamedAlgorithm;
pub use algorithm::TargetDescriptor;
pub use algorithm::bytes_eq;
pub use builder::FlashBuilder;
pub use builder::FlashPage;
pub use builder::FlashSector;
pub use builder::WriteRequest;
pub use config::Config;
pub use download::ImageFormat;
pub use download::detect_format;
pub use download::download_image;
pub use download::extract_load_segments;
pub use errors::AlgorithmParseError;
pub use loader::FlashLoader;
pub use loader::LoaderPhase;
pub use errors::BuildError;
pub use errors::Capability;
pub use errors::Error;
pub use errors::FlashError;
pub use errors::FlashRoutine;
pub use errors::LayoutIssue;
pub use errors::ProbeError;
pub use errors::TargetSelectionError;
pub use memory::MemoryMap;
pub use mi::MemoryInterface;
pub use parser::RawAlgorithm;
pub use parser::RawBlock;
pub use parser::RawDescriptor;
pub use parser::assemble_algorithm;
pub use parser::assemble_descriptor;
pub use parser::parse_text;
pub use parser::scan_text;
pub use registry::Registry;
pub use registry::names_match;
pub use sim::SimConfig;
pub use sim::SimProbe;
pub use memory::MemoryRegion;
pub use memory::RegionKind;
