//! Errors that the analyzer hands back to its caller.
use vstd::prelude::*;

verus! {

#[derive(Clone, Copy, Debug, PartialEq, Eq, Structural)]
pub enum AnalyzerError {
    /// The sensor program could not be loaded into the kernel: missing
    /// privilege, or a bytecode artifact that the kernel or the loader refuses.
    ProgramLoadFailed,
    /// Neither the primary nor the fallback symbol exists in the graphics
    /// library.
    SymbolNotFound,
    /// The kernel refused the attachment for another reason, for instance
    /// because the process has exited.
    AttachFailed,
    /// The process is not attached.
    NotAttached,
}

} // verus!
