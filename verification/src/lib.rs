//! An in-process profiler: named timing scopes, grouped into frames, aggregated per thread.

pub mod chrome_tracing;
pub mod frame;
pub mod function_name;
pub mod processed_profiler;
pub mod profiler;
pub mod registry;
pub mod scope;
pub mod serialization;
mod text;
pub mod time;

pub use function_name::function_name;
pub use frame::{Frame, FrameView};
pub use processed_profiler::{
    ProcessedFrame, ProcessedGlobalProfiler, ProcessedProfileResult, ProcessedProfiler,
};
pub use profiler::{CaptureError, Profiler, ProfilerView};
pub use registry::{GlobalProfiler, RegistryView, ThreadProfiler, ThreadProfilerView};
pub use scope::{Scope, ScopeResult, ScopeResultView};
pub use serialization::{LoadError, TraceError};
pub use time::Duration;
