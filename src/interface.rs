//! The options that drive a hotload session.

use std::path::PathBuf;
use vstd::prelude::*;

verus! {

/// The address of the emulator's remote debugging server.
pub const DEFAULT_GDB_ADDRESS: &'static str = "[::1]:9123";

/// `std::path::PathBuf`, carried opaque.
#[verifier::external_type_specification]
#[verifier::external_body]
pub struct ExPathBuf(PathBuf);

/// What to build, what to watch and what to run.
#[derive(Debug)]
pub struct Args {
    /// Build system command to run (e.g. `make`, `ninja`, `libdragon build`).
    pub build: String,
    /// ELF file that the build command writes.
    pub elf: PathBuf,
    /// Source files and directories watched, recursively, for changes.
    pub src: Vec<PathBuf>,
    /// Emulator command (e.g. `ares rom.z64`).
    pub emulator: String,
    /// Safe functions, high up in the call stack, where updating can occur.
    pub checkpoints: Vec<Checkpoint>,
}

/// An update-safe point in the code where dynamic software updating can
/// occur.
#[derive(Debug, Clone)]
pub struct Checkpoint {
    /// Symbol name of the function.
    pub function: String,
}

impl Checkpoint {
    /// The checkpoint at the function named `function`.
    pub fn named(function: &str) -> (r: Checkpoint)
        ensures
            r.function@ == function@,
    {
        Checkpoint { function: function.to_owned() }
    }
}

impl core::str::FromStr for Checkpoint {
    type Err = String;

    /// Every text names a checkpoint.
    fn from_str(s: &str) -> core::result::Result<Checkpoint, String> {
        Ok(Checkpoint::named(s))
    }
}

} // verus!
