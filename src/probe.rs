//! Where the sensor is attached in a target process, and how a failed
//! attempt falls back to the second symbol.
use crate::error::AnalyzerError;
use vstd::prelude::*;

verus! {

/// Name of the probe program inside the sensor's bytecode.
pub const PROGRAM_NAME: &'static str = "frame_analyzer_ebpf";

/// Name of the ring buffer map inside the sensor's bytecode.
pub const RING_MAP_NAME: &'static str = "RING_BUF";

/// The shared graphics library that the sensor is attached to.
pub const LIBGUI_PATH: &'static str = "/system/lib64/libgui.so";

/// `android::Surface::queueBuffer(ANativeWindowBuffer*, int)`.
pub const PRIMARY_SYMBOL: &'static str = "_ZN7android7Surface11queueBufferEP19ANativeWindowBufferi";

/// The overload with a trailing `SurfaceQueueBufferOutput*`, which some
/// library versions export instead.
pub const FALLBACK_SYMBOL: &'static str =
    "_ZN7android7Surface11queueBufferEP19ANativeWindowBufferiPNS_24SurfaceQueueBufferOutputE";

/// Why one attach attempt on one symbol failed.
#[derive(Clone, Copy, Debug, PartialEq, Eq, Structural)]
pub enum AttachFault {
    /// The symbol could not be resolved in the library.
    SymbolMissing,
    /// The kernel or the loader refused the attachment.
    Rejected,
}

/// The error reported once both symbols were tried and both failed.
pub open spec fn attach_error_spec(primary: AttachFault, fallback: AttachFault) -> AnalyzerError {
    if primary == AttachFault::SymbolMissing && fallback == AttachFault::SymbolMissing {
        AnalyzerError::SymbolNotFound
    } else {
        AnalyzerError::AttachFailed
    }
}

/// Combines the faults of the primary and the fallback attempt: only when
/// neither symbol exists is the error `SymbolNotFound`.
pub fn attach_error(primary: AttachFault, fallback: AttachFault) -> (r: AnalyzerError)
    ensures
        r == attach_error_spec(primary, fallback),
{
    match (primary, fallback) {
        (AttachFault::SymbolMissing, AttachFault::SymbolMissing) => AnalyzerError::SymbolNotFound,
        _ => AnalyzerError::AttachFailed,
    }
}

/// The outcome of attaching: the primary attempt's attachment if it
/// succeeded, else the fallback attempt's, else the combined error.
pub open spec fn fallback_result<T>(
    primary: Result<T, AttachFault>,
    fallback: Result<T, AttachFault>,
) -> Result<T, AnalyzerError> {
    match primary {
        Ok(t) => Ok(t),
        Err(first) => match fallback {
            Ok(t) => Ok(t),
            Err(second) => Err(attach_error_spec(first, second)),
        },
    }
}

/// Attaches through `attach`, first on the primary symbol, then, if that
/// fails for any reason, on the fallback symbol.
pub fn attach_with_fallback<T, F: FnMut(&'static str) -> Result<T, AttachFault>>(mut attach: F) -> (r:
    Result<T, AnalyzerError>)
    requires
        forall|symbol: &'static str| attach.requires((symbol,)),
    ensures
        exists|primary: Result<T, AttachFault>, fallback: Result<T, AttachFault>|
            {
                &&& attach.ensures((PRIMARY_SYMBOL,), primary)
                &&& primary is Err ==> attach.ensures((FALLBACK_SYMBOL,), fallback)
                &&& r == #[trigger] fallback_result(primary, fallback)
            },
{
    let primary = attach(PRIMARY_SYMBOL);
    match primary {
        Ok(t) => {
            assert(fallback_result(primary, Err(AttachFault::Rejected)) == Ok::<T, AnalyzerError>(t));
            Ok(t)
        },
        Err(first) => {
            let fallback = attach(FALLBACK_SYMBOL);
            assert(fallback_result(primary, fallback) == fallback_result(Err(first), fallback));
            match fallback {
                Ok(t) => Ok(t),
                Err(second) => Err(attach_error(first, second)),
            }
        },
    }
}

} // verus!
