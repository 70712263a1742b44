//! The engine's configuration: one explicit value built at process
//! start and passed to the components that need it.

use vstd::prelude::*;

use crate::errors::Error;

verus! {

/// Options that govern a flash run.
#[derive(Clone, Copy, PartialEq, Eq, Structural, Debug)]
pub struct Config {
    /// Read programmed regions back and compare them (default on).
    pub verify: bool,
    /// How many completion polls a routine call gets before it times
    /// out.
    pub timeout_polls: u32,
}

impl Config {
    pub open spec fn wf(self) -> bool {
        self.timeout_polls >= 1
    }

    /// The configuration a process starts with; a shell around the
    /// library may override the fields it read from elsewhere.
    pub fn new() -> (r: Result<Config, Error>)
        ensures
            r == Ok::<Config, Error>(Config { verify: true, timeout_polls: 1000 }),
    {
        Ok(Config { verify: true, timeout_polls: 1000 })
    }
}

impl Default for Config {
    fn default() -> (r: Config)
        ensures
            r == (Config { verify: true, timeout_polls: 1000 }),
    {
        Config { verify: true, timeout_polls: 1000 }
    }
}

} // verus!
