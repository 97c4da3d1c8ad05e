//! Configuration of a profiling session.

use vstd::prelude::*;

use crate::sampler::ThreadFilter;
use crate::symbolicate::Symbolizer;
use crate::symbolicated::Unresolved;

verus! {

/// What a builder has been configured with.
pub struct BuilderModel {
    pub freq_hz: u32,
    pub thread_filter: ThreadFilter,
    pub duration_nanos: Option<u64>,
    pub has_symbolizer: bool,
    pub unresolved: Unresolved,
}

/// Configures a profiling session; a front end then starts the session
/// on a target with the configuration.
pub struct ProfilerBuilder {
    freq_hz: u32,
    thread_filter: ThreadFilter,
    duration_nanos: Option<u64>,
    symbolizer: Option<Box<dyn Symbolizer>>,
    unresolved: Unresolved,
}

impl ProfilerBuilder {
    pub closed spec fn view(&self) -> BuilderModel {
        BuilderModel {
            freq_hz: self.freq_hz,
            thread_filter: self.thread_filter,
            duration_nanos: self.duration_nanos,
            has_symbolizer: self.symbolizer is Some,
            unresolved: self.unresolved,
        }
    }

    /// 99 Hz, all threads, no time limit, no custom symbolizer, unresolved
    /// frames kept as hex addresses.
    pub fn new() -> (r: Self)
        ensures
            r@ == (BuilderModel {
                freq_hz: 99,
                thread_filter: ThreadFilter::All,
                duration_nanos: None,
                has_symbolizer: false,
                unresolved: Unresolved::Hex,
            }),
    {
        ProfilerBuilder {
            freq_hz: 99,
            thread_filter: ThreadFilter::All,
            duration_nanos: None,
            symbolizer: None,
            unresolved: Unresolved::Hex,
        }
    }

    /// Sets the sampling frequency in Hz (default: 99).
    pub fn freq(self, hz: u32) -> (r: Self)
        ensures
            r@ == (BuilderModel { freq_hz: hz, ..self@ }),
    {
        let mut b = self;
        b.freq_hz = hz;
        b
    }

    /// Stops sampling automatically after `nanos` nanoseconds (whichever
    /// comes first: this, a manual stop, or the target exiting).
    pub fn duration(self, nanos: u64) -> (r: Self)
        ensures
            r@ == (BuilderModel { duration_nanos: Some(nanos), ..self@ }),
    {
        let mut b = self;
        b.duration_nanos = Some(nanos);
        b
    }

    /// Only samples threads whose name contains `name`.
    pub fn thread_name(self, name: String) -> (r: Self)
        ensures
            r@ == (BuilderModel { thread_filter: ThreadFilter::ByName(name), ..self@ }),
    {
        let mut b = self;
        b.thread_filter = ThreadFilter::ByName(name);
        b
    }

    /// Only samples the main thread (the first in the OS thread list).
    pub fn main_thread(self) -> (r: Self)
        ensures
            r@ == (BuilderModel { thread_filter: ThreadFilter::MainThread, ..self@ }),
    {
        let mut b = self;
        b.thread_filter = ThreadFilter::MainThread;
        b
    }

    /// Only samples the thread with this numeric thread ID.
    pub fn thread_id(self, id: u64) -> (r: Self)
        ensures
            r@ == (BuilderModel { thread_filter: ThreadFilter::ById(id), ..self@ }),
    {
        let mut b = self;
        b.thread_filter = ThreadFilter::ById(id);
        b
    }

    /// Only samples the thread with this Mach thread port.
    pub fn thread_mach_port(self, port: u32) -> (r: Self)
        ensures
            r@ == (BuilderModel { thread_filter: ThreadFilter::ByMachThread(port), ..self@ }),
    {
        let mut b = self;
        b.thread_filter = ThreadFilter::ByMachThread(port);
        b
    }

    /// Uses a custom symbolizer, tried before the native one.
    pub fn symbolizer<S: Symbolizer + 'static>(self, s: S) -> (r: Self)
        ensures
            r@ == (BuilderModel { has_symbolizer: true, ..self@ }),
    {
        let mut b = self;
        let boxed: Box<dyn Symbolizer> = Box::new(s);
        b.symbolizer = Some(boxed);
        b
    }

    /// Sets what happens to addresses no symbolizer resolves.
    pub fn unresolved(self, mode: Unresolved) -> (r: Self)
        ensures
            r@ == (BuilderModel { unresolved: mode, ..self@ }),
    {
        let mut b = self;
        b.unresolved = mode;
        b
    }

    /// Applies the thread selection of the command line: the main thread
    /// when asked for, else a thread name, else a thread id, else all
    /// threads as configured.
    pub fn apply_thread_filter(self, thread: Option<String>, thread_id: Option<u64>, main_thread: bool) -> (r: Self)
        ensures
            r@ == (BuilderModel {
                thread_filter: if main_thread {
                    ThreadFilter::MainThread
                } else if thread is Some {
                    ThreadFilter::ByName(thread->0)
                } else if thread_id is Some {
                    ThreadFilter::ById(thread_id->0)
                } else {
                    self@.thread_filter
                },
                ..self@
            }),
    {
        if main_thread {
            self.main_thread()
        } else {
            match thread {
                Some(name) => self.thread_name(name),
                None => match thread_id {
                    Some(id) => self.thread_id(id),
                    None => self,
                },
            }
        }
    }

    /// The configuration, with the custom symbolizer if any: sampling
    /// frequency, thread filter, time limit, symbolizer, unresolved mode.
    pub fn into_parts(self) -> (r: (u32, ThreadFilter, Option<u64>, Option<Box<dyn Symbolizer>>, Unresolved))
        ensures
            r.0 == self@.freq_hz,
            r.1 == self@.thread_filter,
            r.2 == self@.duration_nanos,
            r.3 is Some == self@.has_symbolizer,
            r.4 == self@.unresolved,
    {
        (self.freq_hz, self.thread_filter, self.duration_nanos, self.symbolizer, self.unresolved)
    }
}

impl Default for ProfilerBuilder {
    fn default() -> (r: Self)
        ensures
            r@ == (BuilderModel {
                freq_hz: 99,
                thread_filter: ThreadFilter::All,
                duration_nanos: None,
                has_symbolizer: false,
                unresolved: Unresolved::Hex,
            }),
    {
        ProfilerBuilder::new()
    }
}

} // verus!
