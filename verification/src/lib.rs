//! Sampling-profiler core: the pprof protobuf model and codec, the live
//! streaming protocol, raw sample bookkeeping, symbolication bookkeeping,
//! and hotspot analysis.

pub mod assoc;
pub mod sorting;
pub mod text;
pub mod wire;
pub mod pprof;
pub mod roundtrip;
pub mod stream;
pub mod sampler;
pub mod report;
pub mod symbolicate;
pub mod symbolicated;
pub mod encode;
pub mod processes;
pub mod session;
pub mod builder;

use vstd::prelude::*;

pub use builder::ProfilerBuilder;
pub use pprof::{PprofProfile, ProfileEncoder};
pub use processes::{required_helper_arch, ProcessInfo};
pub use sampler::{LoadedImage, RawProfile, RawProfileCursor, RawSampleSeries, ThreadFilter};
pub use stream::{
    FrameKind, SessionHello, StreamHeader, StreamProtocolError, DEFAULT_SESSION_PORT, STREAM_HEADER_LEN,
};
pub use symbolicate::{FrameInfo, NativeSymbolizer, Symbolizer, SymbolizerChain};
pub use symbolicated::{Sample, StackFrame, SymbolicatedProfile, TreeNode, Unresolved};

verus! {

/// A builder with the default configuration.
pub fn builder() -> (r: ProfilerBuilder)
    ensures
        r@ == (builder::BuilderModel {
            freq_hz: 99,
            thread_filter: sampler::ThreadFilter::All,
            duration_nanos: None,
            has_symbolizer: false,
            unresolved: symbolicated::Unresolved::Hex,
        }),
{
    ProfilerBuilder::new()
}

} // verus!
