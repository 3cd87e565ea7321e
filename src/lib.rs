//! Frametime measurement for processes instrumented by a kernel uprobe.
//!
//! The kernel sensor pushes one fixed-size record per buffer submission into a
//! ring buffer. This library decodes those records, turns timestamps into
//! frametimes, and keeps the per-process bookkeeping of an analyzer that
//! multiplexes many instrumented processes over one poller.
pub mod analyzer;
pub mod error;
pub mod frametime;
pub mod probe;
pub mod signal;
pub mod target;

pub use analyzer::Analyzer;
pub use error::AnalyzerError;
pub use frametime::{frametime_ns, FrametimeTracker};
pub use signal::{FrameSignal, RecordError, RECORD_SIZE};
pub use target::{AnalyzeTarget, Pid};
