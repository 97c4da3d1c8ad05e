//! Structured, symbolicated profile data and a lazy call-tree view over it.

use std::collections::{HashMap, HashSet};

use vstd::prelude::*;

use crate::assoc::lookup;
use crate::sampler::{copy_images, copy_u64s, RawProfile, SeriesModel, LoadedImage};
use crate::symbolicate::{fresh_addresses, FrameInfo, Symbolizer};
use crate::text::{hex16, hex_address};

verus! {

broadcast use vstd::std_specs::hash::group_hash_axioms;

/// What to do when no symbolizer can resolve an address.
#[derive(Debug, Clone, Copy, PartialEq, Eq)]
pub enum Unresolved {
    /// Keep the frame with a hex address string (e.g. `"0x00007fff12345678"`).
    /// This is the default — no samples are silently dropped.
    Hex,
    /// Skip the frame: remove it from the output, flattening its children to
    /// the parent frame.
    Skip,
}

impl Default for Unresolved {
    fn default() -> (r: Self)
        ensures
            r == Unresolved::Hex,
    {
        Unresolved::Hex
    }
}

/// A single frame in a call stack.
#[derive(Debug, Clone)]
pub struct StackFrame {
    /// Raw instruction pointer address.
    pub address: u64,
    /// Demangled function name, or `"0x{address:016x}"` if unresolved + hex mode.
    pub function: String,
    /// Source file path, or empty string if unavailable.
    pub file: String,
    /// Source line number, or `0` if unavailable.
    pub line: u32,
}

/// A frame as a mathematical value.
pub struct FrameView {
    pub address: u64,
    pub function: Seq<char>,
    pub file: Seq<char>,
    pub line: u32,
}

impl StackFrame {
    pub open spec fn view(&self) -> FrameView {
        FrameView { address: self.address, function: self.function@, file: self.file@, line: self.line }
    }
}

/// A single aggregated sample: a thread + call stack observed `count` times.
#[derive(Debug, Clone)]
pub struct Sample {
    /// Stable numeric thread identifier (from the OS).
    pub thread_id: u64,
    /// Raw frame pointer addresses, leaf-first.  Addresses absent from the
    /// profile's frame pool were skipped by the symbolizer.
    pub stack: Vec<u64>,
    /// Number of times this exact stack was observed on this thread.
    pub count: u64,
    /// When the observation was made, for samples that stand for one.
    pub timestamp_nanos: Option<u64>,
}

/// A sample as a mathematical value.
pub struct SampleView {
    pub thread_id: u64,
    pub stack: Seq<u64>,
    pub count: u64,
    pub timestamp_nanos: Option<u64>,
}

impl Sample {
    pub open spec fn view(&self) -> SampleView {
        SampleView {
            thread_id: self.thread_id,
            stack: self.stack@,
            count: self.count,
            timestamp_nanos: self.timestamp_nanos,
        }
    }
}

pub open spec fn sample_views(v: Seq<Sample>) -> Seq<SampleView> {
    v.map_values(|s: Sample| s@)
}

/// A fully symbolicated CPU profile ready for inspection or serialization.
#[derive(Debug, Clone)]
pub struct SymbolicatedProfile {
    /// Frame pool keyed by address. Each unique address appears at most once.
    /// Addresses absent from this map were skipped by the symbolizer.
    pub frames: HashMap<u64, StackFrame>,
    /// Thread metadata: thread_id → thread_name.
    pub threads: HashMap<u64, String>,
    /// All collected samples, one entry per unique (thread, stack) pair.
    pub samples: Vec<Sample>,
    /// The images loaded in the target when sampling ended.
    pub images: Vec<LoadedImage>,
    /// Wall-clock time at which sampling started, in nanoseconds since the Unix epoch.
    pub start_time_unix_nanos: u64,
    /// Total elapsed time of the profiling session, in nanoseconds.
    pub duration_nanos: u64,
    /// Sampling frequency in Hz.
    pub freq_hz: u32,
}

// ---------------------------------------------------------------------------
// Profile construction
// ---------------------------------------------------------------------------

/// Every address of every stack, stack after stack.
pub open spec fn all_addresses(entries: Seq<((u64, Seq<u64>), SeriesModel)>) -> Seq<u64>
    decreases entries.len(),
{
    if entries.len() == 0 {
        Seq::empty()
    } else {
        all_addresses(entries.drop_last()) + entries.last().0.1
    }
}

/// What a symbolizer said of each address, as mathematical values.
pub open spec fn resolution_views(v: Seq<(u64, Option<FrameInfo>)>) -> Seq<(u64, Option<(Seq<char>, Seq<char>, u32)>)> {
    v.map_values(|e: (u64, Option<FrameInfo>)| (e.0, match e.1 {
        Some(i) => Some(i@),
        None => None,
    }))
}

/// The resolution recorded for `a` (the last one when several are).
pub open spec fn resolution_of(
    resolutions: Seq<(u64, Option<(Seq<char>, Seq<char>, u32)>)>,
    a: u64,
) -> Option<(Seq<char>, Seq<char>, u32)> {
    match lookup(crate::assoc::assoc_map(resolutions), a) {
        Some(Some(info)) => Some(info),
        _ => None,
    }
}

/// The frame kept for address `a` given what it resolved to.
pub open spec fn frame_for(
    a: u64,
    info: Option<(Seq<char>, Seq<char>, u32)>,
    unresolved: Unresolved,
) -> Option<FrameView> {
    match info {
        Some(i) => Some(FrameView { address: a, function: i.0, file: i.1, line: i.2 }),
        None => match unresolved {
            Unresolved::Skip => None,
            Unresolved::Hex => Some(FrameView { address: a, function: hex16(a), file: Seq::empty(), line: 0 }),
        },
    }
}

/// The samples of a raw profile: each `(thread, stack)` entry in order, its
/// stack without the addresses `keep` rejects, entries left empty dropped.
pub open spec fn samples_of(
    entries: Seq<((u64, Seq<u64>), SeriesModel)>,
    keep: spec_fn(u64) -> bool,
) -> Seq<SampleView>
    decreases entries.len(),
{
    if entries.len() == 0 {
        Seq::empty()
    } else {
        let before = samples_of(entries.drop_last(), keep);
        let e = entries.last();
        let stack = e.0.1.filter(keep);
        if stack.len() == 0 {
            before
        } else {
            before.push(SampleView { thread_id: e.0.0, stack, count: e.1.count, timestamp_nanos: None })
        }
    }
}

/// `end - start`, or zero when `end` is earlier.
pub open spec fn elapsed(start: u64, end: u64) -> u64 {
    if end >= start {
        (end - start) as u64
    } else {
        0
    }
}

/// `p` is the symbolicated form of `raw` given what each address resolved to.
pub open spec fn assembled(
    p: SymbolicatedProfile,
    raw: RawProfile,
    resolutions: Seq<(u64, Option<(Seq<char>, Seq<char>, u32)>)>,
    unresolved: Unresolved,
    freq_hz: u32,
    start_time_unix_nanos: u64,
) -> bool {
    let addrs = all_addresses(raw.stack_entries());
    &&& forall|a: u64|
        #[trigger] p.frames@.contains_key(a) <==> (addrs.contains(a) && frame_for(
            a,
            resolution_of(resolutions, a),
            unresolved,
        ) is Some)
    &&& forall|a: u64|
        #[trigger] p.frames@.contains_key(a) ==> Some(p.frames@[a]@) == frame_for(
            a,
            resolution_of(resolutions, a),
            unresolved,
        )
    &&& forall|t: u64| #[trigger] p.threads@.contains_key(t) <==> raw.name_map().contains_key(t)
    &&& forall|t: u64| #[trigger] p.threads@.contains_key(t) ==> p.threads@[t]@ == raw.name_map()[t]
    &&& sample_views(p.samples@) == samples_of(
        raw.stack_entries(),
        |a: u64| frame_for(a, resolution_of(resolutions, a), unresolved) is Some,
    )
    &&& p.images@ == raw.images@
    &&& p.start_time_unix_nanos == start_time_unix_nanos
    &&& p.duration_nanos == elapsed(raw.start_time_nanos, raw.end_time_nanos)
    &&& p.freq_hz == freq_hz
}

/// The distinct addresses of all stacks of `raw`, in order of first occurrence.
pub fn unique_addresses(raw: &RawProfile) -> (r: Vec<u64>)
    ensures
        r@ == fresh_addresses(Set::empty(), all_addresses(raw.stack_entries())),
{
    let ghost entries = raw.stack_entries();
    let mut seen: HashSet<u64> = HashSet::new();
    let mut out: Vec<u64> = Vec::new();
    let mut i: usize = 0;
    while i < raw.stacks.len()
        invariant
            entries == raw.stack_entries(),
            i <= raw.stacks@.len(),
            out@ == fresh_addresses(Set::empty(), all_addresses(entries.take(i as int))),
            seen@ == all_addresses(entries.take(i as int)).to_set(),
        decreases raw.stacks@.len() - i,
    {
        let stack = &raw.stacks[i].0.1;
        let ghost done = all_addresses(entries.take(i as int));
        proof {
            assert(entries.take(i + 1).drop_last() =~= entries.take(i as int));
            assert(entries.take(i + 1).last().0.1 == stack@);
        }
        let mut j: usize = 0;
        while j < stack.len()
            invariant
                j <= stack@.len(),
                out@ == fresh_addresses(Set::empty(), done + stack@.take(j as int)),
                seen@ == (done + stack@.take(j as int)).to_set(),
            decreases stack@.len() - j,
        {
            let a = stack[j];
            let ghost prev = done + stack@.take(j as int);
            proof {
                assert(done + stack@.take(j + 1) =~= prev.push(a));
                assert(prev.push(a).drop_last() =~= prev);
                assert forall|x: u64| #[trigger] prev.push(a).to_set().contains(x) <==> prev.to_set().insert(a).contains(x) by {
                    vstd::seq_lib::lemma_seq_contains_after_push(prev, a, x);
                }
                assert(prev.push(a).to_set() =~= prev.to_set().insert(a));
            }
            if !seen.contains(&a) {
                out.push(a);
                seen.insert(a);
            }
            j = j + 1;
        }
        proof {
            assert(stack@.take(j as int) =~= stack@);
        }
        i = i + 1;
    }
    proof {
        assert(entries.take(i as int) =~= entries);
    }
    out
}

proof fn lemma_fresh_contains(seen: Set<u64>, s: Seq<u64>, a: u64)
    requires
        seen.len() == 0,
        seen.finite(),
    ensures
        fresh_addresses(seen, s).contains(a) <==> s.contains(a),
    decreases s.len(),
{
    if s.len() > 0 {
        lemma_fresh_contains(seen, s.drop_last(), a);
        vstd::seq_lib::lemma_seq_contains_after_push(s.drop_last(), s.last(), a);
        assert(s.drop_last().push(s.last()) =~= s);
        let f = fresh_addresses(seen, s.drop_last());
        vstd::seq_lib::lemma_seq_contains_after_push(f, s.last(), a);
        if s.drop_last().contains(s.last()) {
            lemma_fresh_contains(seen, s.drop_last(), s.last());
        }
    }
}

impl SymbolicatedProfile {
    /// Builds the symbolicated form of `raw` from what each address resolved
    /// to (`resolutions`; an address with no entry counts as unresolved).
    pub fn assemble(
        raw: RawProfile,
        resolutions: Vec<(u64, Option<FrameInfo>)>,
        unresolved: Unresolved,
        freq_hz: u32,
        start_time_unix_nanos: u64,
    ) -> (r: Self)
        requires
            raw.wf(),
        ensures
            assembled(r, raw, resolution_views(resolutions@), unresolved, freq_hz, start_time_unix_nanos),
    {
        let ghost res = resolution_views(resolutions@);
        let ghost entries = raw.stack_entries();
        let ghost addrs = all_addresses(entries);
        let ghost keep = |a: u64| frame_for(a, resolution_of(res, a), unresolved) is Some;
        let addresses = unique_addresses(&raw);
        proof {
            assert forall|a: u64| #[trigger] addresses@.contains(a) <==> addrs.contains(a) by {
                lemma_fresh_contains(Set::empty(), addrs, a);
            }
        }
        let mut frames: HashMap<u64, StackFrame> = HashMap::new();
        let mut i: usize = 0;
        while i < addresses.len()
            invariant
                res == resolution_views(resolutions@),
                keep == (|a: u64| frame_for(a, resolution_of(res, a), unresolved) is Some),
                i <= addresses@.len(),
                forall|a: u64| #[trigger] frames@.contains_key(a) <==> (addresses@.take(i as int).contains(a) && keep(a)),
                forall|a: u64| #[trigger] frames@.contains_key(a) ==> Some(frames@[a]@) == frame_for(a, resolution_of(res, a), unresolved),
            decreases addresses@.len() - i,
        {
            let a = addresses[i];
            let info = resolution_for(&resolutions, a);
            proof {
                vstd::seq_lib::lemma_seq_contains_after_push(addresses@.take(i as int), a, a);
                assert(addresses@.take(i + 1) =~= addresses@.take(i as int).push(a));
                assert forall|x: u64| addresses@.take(i + 1).contains(x) <==> (addresses@.take(i as int).contains(x) || x == a) by {
                    vstd::seq_lib::lemma_seq_contains_after_push(addresses@.take(i as int), a, x);
                }
            }
            let ghost before = frames@;
            match info {
                Some(found) => {
                    frames.insert(a, StackFrame { address: a, function: found.function, file: found.file, line: found.line });
                },
                None => match unresolved {
                    Unresolved::Skip => {},
                    Unresolved::Hex => {
                        frames.insert(a, StackFrame { address: a, function: hex_address(a), file: String::new(), line: 0 });
                    },
                },
            }
            proof {
                assert(keep(a) == frame_for(a, resolution_of(res, a), unresolved) is Some);
                assert forall|x: u64| #[trigger] frames@.contains_key(x) <==> (addresses@.take(i + 1).contains(x) && keep(x)) by {
                    if x != a {
                        assert(frames@.contains_key(x) == before.contains_key(x));
                    }
                }
            }
            i = i + 1;
        }
        proof {
            assert(addresses@.take(i as int) =~= addresses@);
        }
        let threads = raw.thread_names.clone();
        let mut samples: Vec<Sample> = Vec::new();
        let mut e: usize = 0;
        while e < raw.stacks.len()
            invariant
                entries == raw.stack_entries(),
                addrs == all_addresses(entries),
                e <= raw.stacks@.len(),
                forall|a: u64| addrs.contains(a) ==> (#[trigger] frames@.contains_key(a) <==> keep(a)),
                sample_views(samples@) == samples_of(entries.take(e as int), keep),
            decreases raw.stacks@.len() - e,
        {
            let stack = &raw.stacks[e].0.1;
            proof {
                assert(entries.take(e + 1).drop_last() =~= entries.take(e as int));
                assert(entries.take(e + 1).last() == entries[e as int]);
                assert(entries[e as int].0.1 == stack@);
                lemma_stack_in_addresses(entries, e as int);
            }
            let mut kept: Vec<u64> = Vec::new();
            let mut j: usize = 0;
            while j < stack.len()
                invariant
                    j <= stack@.len(),
                    forall|x: int| 0 <= x < stack@.len() ==> addrs.contains(#[trigger] stack@[x]),
                    forall|a: u64| addrs.contains(a) ==> (#[trigger] frames@.contains_key(a) <==> keep(a)),
                    kept@ == stack@.take(j as int).filter(keep),
                decreases stack@.len() - j,
            {
                proof {
                    assert(stack@.take(j + 1).drop_last() =~= stack@.take(j as int));
                    reveal(Seq::filter);
                }
                if frames.contains_key(&stack[j]) {
                    kept.push(stack[j]);
                }
                j = j + 1;
            }
            proof {
                assert(stack@.take(j as int) =~= stack@);
            }
            if kept.len() > 0 {
                let ghost before = samples@;
                samples.push(Sample { thread_id: raw.stacks[e].0.0, stack: kept, count: raw.stacks[e].1.count, timestamp_nanos: None });
                proof {
                    assert(sample_views(samples@) =~= sample_views(before).push(samples@[before.len() as int]@));
                }
            }
            e = e + 1;
        }
        proof {
            assert(entries.take(e as int) =~= entries);
        }
        let duration_nanos = if raw.end_time_nanos >= raw.start_time_nanos {
            raw.end_time_nanos - raw.start_time_nanos
        } else {
            0
        };
        let images = copy_images(&raw.images);
        let r = SymbolicatedProfile {
            frames,
            threads,
            samples,
            images,
            start_time_unix_nanos,
            duration_nanos,
            freq_hz,
        };
        proof {
            assert forall|t: u64| #[trigger] r.threads@.contains_key(t) <==> raw.name_map().contains_key(t) by {
                assert(r.threads@.map_values(|s: String| s@).contains_key(t) == r.threads@.contains_key(t));
            }
            assert forall|t: u64| #[trigger] r.threads@.contains_key(t) implies r.threads@[t]@ == raw.name_map()[t] by {
                assert(r.threads@.map_values(|s: String| s@)[t] == r.threads@[t]@);
            }
            assert(sample_views(r.samples@) == samples_of(raw.stack_entries(), keep));
        }
        r
    }

    /// Symbolicates `raw`: each distinct address of its stacks is handed to
    /// `symbolizer` exactly once, in order of first appearance, and the
    /// profile is assembled from its answers (see `assemble`).
    pub fn from_raw_with_symbolizer(
        raw: RawProfile,
        symbolizer: &dyn Symbolizer,
        unresolved: Unresolved,
        freq_hz: u32,
        start_time_unix_nanos: u64,
    ) -> (r: Self)
        requires
            raw.wf(),
        ensures
            exists|answers: Seq<(u64, Option<FrameInfo>)>|
                {
                    &&& answers.map_values(|e: (u64, Option<FrameInfo>)| e.0)
                        == fresh_addresses(Set::empty(), all_addresses(raw.stack_entries()))
                    &&& forall|k: int| 0 <= k < answers.len() ==> symbolizer.answers(#[trigger] answers[k].0, answers[k].1)
                    &&& assembled(r, raw, resolution_views(answers), unresolved, freq_hz, start_time_unix_nanos)
                },
    {
        let addresses = unique_addresses(&raw);
        let mut resolutions: Vec<(u64, Option<FrameInfo>)> = Vec::new();
        let mut i: usize = 0;
        while i < addresses.len()
            invariant
                i <= addresses@.len(),
                resolution_views(resolutions@).map_values(|e: (u64, Option<(Seq<char>, Seq<char>, u32)>)| e.0)
                    == addresses@.take(i as int),
                forall|k: int| 0 <= k < resolutions@.len() ==> symbolizer.answers(#[trigger] resolutions@[k].0, resolutions@[k].1),
            decreases addresses@.len() - i,
        {
            let a = addresses[i];
            let info = symbolizer.symbolize_frame(a);
            let ghost before = resolutions@;
            resolutions.push((a, info));
            proof {
                assert(resolution_views(resolutions@) =~= resolution_views(before).push(resolution_views(resolutions@).last()));
                assert(resolution_views(resolutions@).map_values(|e: (u64, Option<(Seq<char>, Seq<char>, u32)>)| e.0)
                    =~= resolution_views(before).map_values(|e: (u64, Option<(Seq<char>, Seq<char>, u32)>)| e.0).push(a));
                assert(addresses@.take(i + 1) =~= addresses@.take(i as int).push(a));
            }
            i = i + 1;
            assert(resolution_views(resolutions@).map_values(|e: (u64, Option<(Seq<char>, Seq<char>, u32)>)| e.0)
                =~= addresses@.take(i as int));
        }
        proof {
            assert(addresses@.take(i as int) =~= addresses@);
        }
        let ghost answers = resolutions@;
        proof {
            assert(answers.map_values(|e: (u64, Option<FrameInfo>)| e.0)
                =~= resolution_views(answers).map_values(|e: (u64, Option<(Seq<char>, Seq<char>, u32)>)| e.0));
        }
        SymbolicatedProfile::assemble(raw, resolutions, unresolved, freq_hz, start_time_unix_nanos)
    }
}

proof fn lemma_stack_in_addresses(entries: Seq<((u64, Seq<u64>), SeriesModel)>, e: int)
    requires
        0 <= e < entries.len(),
    ensures
        forall|x: int| 0 <= x < entries[e].0.1.len() ==> all_addresses(entries).contains(#[trigger] entries[e].0.1[x]),
    decreases entries.len(),
{
    let s = entries[e].0.1;
    if e == entries.len() - 1 {
        assert forall|x: int| 0 <= x < s.len() implies all_addresses(entries).contains(#[trigger] s[x]) by {
            let d = all_addresses(entries.drop_last());
            assert((d + s)[d.len() + x] == s[x]);
        }
    } else {
        lemma_stack_in_addresses(entries.drop_last(), e);
        assert forall|x: int| 0 <= x < s.len() implies all_addresses(entries).contains(#[trigger] s[x]) by {
            let d = all_addresses(entries.drop_last());
            assert(entries.drop_last()[e] == entries[e]);
            assert(d.contains(s[x]));
            let w = choose|w: int| 0 <= w < d.len() && d[w] == s[x];
            assert((d + entries.last().0.1)[w] == s[x]);
        }
    }
}

/// What `resolutions` records for `a` (its last entry), without the
/// unresolved case.
fn resolution_for(resolutions: &Vec<(u64, Option<FrameInfo>)>, a: u64) -> (r: Option<FrameInfo>)
    ensures
        match r {
            Some(i) => resolution_of(resolution_views(resolutions@), a) == Some(i@),
            None => resolution_of(resolution_views(resolutions@), a) is None,
        },
{
    let ghost v = resolution_views(resolutions@);
    let mut i: usize = resolutions.len();
    proof {
        assert(v.take(i as int) =~= v);
    }
    while i > 0
        invariant
            v == resolution_views(resolutions@),
            i <= resolutions@.len(),
            lookup(crate::assoc::assoc_map(v), a) == lookup(crate::assoc::assoc_map(v.take(i as int)), a),
        decreases i,
    {
        proof {
            assert(v.take(i as int).drop_last() =~= v.take(i - 1));
        }
        if resolutions[i - 1].0 == a {
            return match &resolutions[i - 1].1 {
                Some(info) => Some(FrameInfo { function: info.function.clone(), file: info.file.clone(), line: info.line }),
                None => None,
            };
        }
        i = i - 1;
    }
    None
}


// ---------------------------------------------------------------------------
// Reading the profile
// ---------------------------------------------------------------------------

/// `s` begins with `prefix`.
pub open spec fn begins_with(s: Seq<u64>, prefix: Seq<u64>) -> bool {
    prefix.len() <= s.len() && s.take(prefix.len() as int) == prefix
}

/// The sum of the counts of the samples that satisfy `pred`.
pub open spec fn count_sum(samples: Seq<SampleView>, pred: spec_fn(SampleView) -> bool) -> nat
    decreases samples.len(),
{
    if samples.len() == 0 {
        0
    } else {
        count_sum(samples.drop_last(), pred) + if pred(samples.last()) {
            samples.last().count as nat
        } else {
            0
        }
    }
}

/// The root frames of the samples' stacks (the last address of each
/// non-empty stack), each once, in order of first occurrence.
pub open spec fn root_addresses(samples: Seq<SampleView>) -> Seq<u64> {
    fresh_addresses(Set::empty(), stack_roots(samples))
}

/// The last address of every non-empty stack, in order.
pub open spec fn stack_roots(samples: Seq<SampleView>) -> Seq<u64>
    decreases samples.len(),
{
    if samples.len() == 0 {
        Seq::empty()
    } else {
        let before = stack_roots(samples.drop_last());
        if samples.last().stack.len() > 0 {
            before.push(samples.last().stack.last())
        } else {
            before
        }
    }
}

/// For the samples whose root-first stack extends `prefix` by at least one
/// frame, the frame right after `prefix`, in order.
pub open spec fn next_frames(samples: Seq<SampleView>, prefix: Seq<u64>) -> Seq<u64>
    decreases samples.len(),
{
    if samples.len() == 0 {
        Seq::empty()
    } else {
        let before = next_frames(samples.drop_last(), prefix);
        let rev = samples.last().stack.reverse();
        if rev.len() > prefix.len() && begins_with(rev, prefix) {
            before.push(rev[prefix.len() as int])
        } else {
            before
        }
    }
}

/// A node of the call tree over a profile's samples: the path from a root
/// frame to this frame.
pub struct TreeNode<'a> {
    pub profile: &'a SymbolicatedProfile,
    /// The address this node represents.
    pub address: u64,
    /// Root-first stack prefix from the root to this node (inclusive).
    pub prefix: Vec<u64>,
}

/// The samples' root-first stack equals `prefix`.
pub open spec fn ends_at(prefix: Seq<u64>) -> spec_fn(SampleView) -> bool {
    |s: SampleView| s.stack.reverse() == prefix
}

/// The samples' root-first stack begins with `prefix`.
pub open spec fn passes_through(prefix: Seq<u64>) -> spec_fn(SampleView) -> bool {
    |s: SampleView| begins_with(s.stack.reverse(), prefix)
}

impl SymbolicatedProfile {
    /// The frames of a sample's stack, leaf first; addresses absent from the
    /// frame pool are omitted.
    pub fn resolve_stack<'a>(&'a self, sample: &'a Sample) -> (r: Vec<&'a StackFrame>)
        ensures
            r@.map_values(|f: &StackFrame| f@) == sample.stack@.filter(|a: u64| self.frames@.contains_key(a)).map_values(|a: u64| self.frames@[a]@),
    {
        let ghost keep = |a: u64| self.frames@.contains_key(a);
        let mut out: Vec<&'a StackFrame> = Vec::new();
        let mut i: usize = 0;
        while i < sample.stack.len()
            invariant
                keep == (|a: u64| self.frames@.contains_key(a)),
                i <= sample.stack@.len(),
                out@.map_values(|f: &StackFrame| f@) == sample.stack@.take(i as int).filter(keep).map_values(|a: u64| self.frames@[a]@),
            decreases sample.stack@.len() - i,
        {
            proof {
                assert(sample.stack@.take(i + 1).drop_last() =~= sample.stack@.take(i as int));
                reveal(Seq::filter);
            }
            let ghost before = out@;
            match self.frames.get(&sample.stack[i]) {
                Some(f) => {
                    out.push(f);
                    proof {
                        assert(out@.map_values(|f: &StackFrame| f@) =~= before.map_values(|f: &StackFrame| f@).push(f@));
                        let kept = sample.stack@.take(i as int).filter(keep);
                        assert(sample.stack@.take(i + 1).filter(keep) == kept.push(sample.stack@[i as int]));
                        assert(kept.push(sample.stack@[i as int]).map_values(|a: u64| self.frames@[a]@) =~= kept.map_values(|a: u64| self.frames@[a]@).push(self.frames@[sample.stack@[i as int]]@));
                    }
                },
                None => {},
            }
            i = i + 1;
        }
        proof {
            assert(sample.stack@.take(i as int) =~= sample.stack@);
        }
        out
    }

    /// The root nodes of the call tree: one per distinct root frame (the
    /// last, outermost address of a stack), in order of first occurrence.
    pub fn roots(&self) -> (r: Vec<TreeNode<'_>>)
        ensures
            r@.len() == root_addresses(sample_views(self.samples@)).len(),
            forall|i: int| 0 <= i < r@.len() ==> {
                &&& #[trigger] r@[i].address == root_addresses(sample_views(self.samples@))[i]
                &&& r@[i].prefix@ == seq![r@[i].address]
                &&& r@[i].profile == self
            },
            forall|i: int, j: int| 0 <= i < j < r@.len() ==> r@[i].address != r@[j].address,
    {
        let ghost views = sample_views(self.samples@);
        let mut lasts: Vec<u64> = Vec::new();
        let mut i: usize = 0;
        while i < self.samples.len()
            invariant
                views == sample_views(self.samples@),
                i <= self.samples@.len(),
                lasts@ == stack_roots(views.take(i as int)),
            decreases self.samples@.len() - i,
        {
            proof {
                assert(views.take(i + 1).drop_last() =~= views.take(i as int));
                assert(views.take(i + 1).last() == self.samples@[i as int]@);
            }
            let stack = &self.samples[i].stack;
            if stack.len() > 0 {
                lasts.push(stack[stack.len() - 1]);
            }
            i = i + 1;
        }
        proof {
            assert(views.take(i as int) =~= views);
        }
        let addresses = distinct_in_order(&lasts);
        proof {
            lemma_fresh_distinct(lasts@);
        }
        let mut out: Vec<TreeNode<'_>> = Vec::new();
        let mut k: usize = 0;
        while k < addresses.len()
            invariant
                k <= addresses@.len(),
                out@.len() == k,
                forall|j: int| 0 <= j < k ==> {
                    &&& #[trigger] out@[j].address == addresses@[j]
                    &&& out@[j].prefix@ == seq![out@[j].address]
                    &&& out@[j].profile == self
                },
            decreases addresses@.len() - k,
        {
            let mut prefix: Vec<u64> = Vec::new();
            prefix.push(addresses[k]);
            out.push(TreeNode { profile: self, address: addresses[k], prefix });
            k = k + 1;
        }
        out
    }
}

/// The distinct elements of `v`, in order of first occurrence.
pub fn distinct_in_order(v: &Vec<u64>) -> (r: Vec<u64>)
    ensures
        r@ == fresh_addresses(Set::empty(), v@),
{
    let mut seen: HashSet<u64> = HashSet::new();
    let mut out: Vec<u64> = Vec::new();
    let mut i: usize = 0;
    while i < v.len()
        invariant
            i <= v@.len(),
            out@ == fresh_addresses(Set::empty(), v@.take(i as int)),
            seen@ == v@.take(i as int).to_set(),
        decreases v@.len() - i,
    {
        let a = v[i];
        let ghost prev = v@.take(i as int);
        proof {
            assert(v@.take(i + 1) =~= prev.push(a));
            assert(prev.push(a).drop_last() =~= prev);
            assert forall|x: u64| #[trigger] prev.push(a).to_set().contains(x) <==> prev.to_set().insert(a).contains(x) by {
                vstd::seq_lib::lemma_seq_contains_after_push(prev, a, x);
            }
            assert(prev.push(a).to_set() =~= prev.to_set().insert(a));
        }
        if !seen.contains(&a) {
            out.push(a);
            seen.insert(a);
        }
        i = i + 1;
    }
    proof {
        assert(v@.take(i as int) =~= v@);
    }
    out
}

/// Whether the root-first form of `stack` (it is stored leaf first) begins
/// with `prefix`, and whether it equals it.
fn reversed_relation(stack: &Vec<u64>, prefix: &Vec<u64>) -> (r: (bool, bool))
    ensures
        r.0 == begins_with(stack@.reverse(), prefix@),
        r.1 == (stack@.reverse() == prefix@),
{
    let n = stack.len();
    let ghost rev = stack@.reverse();
    if prefix.len() > n {
        assert(rev.len() != prefix@.len());
        return (false, false);
    }
    let mut i: usize = 0;
    while i < prefix.len()
        invariant
            n == stack@.len(),
            rev == stack@.reverse(),
            prefix@.len() <= n,
            i <= prefix@.len(),
            forall|j: int| 0 <= j < i ==> rev[j] == prefix@[j],
        decreases prefix@.len() - i,
    {
        if stack[n - 1 - i] != prefix[i] {
            proof {
                assert(rev[i as int] == stack@[n - 1 - i]);
                assert(rev.take(prefix@.len() as int)[i as int] != prefix@[i as int]);
            }
            return (false, false);
        }
        i = i + 1;
    }
    assert(rev.take(prefix@.len() as int) =~= prefix@);
    if prefix.len() == n {
        assert(rev =~= prefix@);
    }
    (true, prefix.len() == n)
}

impl<'a> TreeNode<'a> {
    /// The resolved stack frame for this node, if available.
    pub fn frame(&self) -> (r: Option<&'a StackFrame>)
        ensures
            match r {
                Some(f) => self.profile.frames@.contains_key(self.address) && *f == self.profile.frames@[self.address],
                None => !self.profile.frames@.contains_key(self.address),
            },
    {
        self.profile.frames.get(&self.address)
    }

    /// Number of samples whose stack ends at this node (this frame is the
    /// deepest, leaf frame).
    pub fn self_count(&self) -> (r: u64)
        requires
            count_sum(sample_views(self.profile.samples@), ends_at(self.prefix@)) <= u64::MAX,
        ensures
            r == count_sum(sample_views(self.profile.samples@), ends_at(self.prefix@)),
    {
        let ghost views = sample_views(self.profile.samples@);
        let ghost pred = ends_at(self.prefix@);
        let mut total: u64 = 0;
        let mut i: usize = 0;
        while i < self.profile.samples.len()
            invariant
                views == sample_views(self.profile.samples@),
                pred == ends_at(self.prefix@),
                count_sum(views, pred) <= u64::MAX,
                i <= self.profile.samples@.len(),
                total == count_sum(views.take(i as int), pred),
            decreases self.profile.samples@.len() - i,
        {
            proof {
                assert(views.take(i + 1).drop_last() =~= views.take(i as int));
                assert(views.take(i + 1).last() == self.profile.samples@[i as int]@);
                lemma_count_sum_prefix(views, pred, i + 1);
            }
            let s = &self.profile.samples[i];
            let (_, exact) = reversed_relation(&s.stack, &self.prefix);
            if exact {
                total = total + s.count;
            }
            i = i + 1;
        }
        proof {
            assert(views.take(i as int) =~= views);
        }
        total
    }

    /// Number of samples whose stack passes through this node: its own and
    /// those of all descendants.
    pub fn total_count(&self) -> (r: u64)
        requires
            count_sum(sample_views(self.profile.samples@), passes_through(self.prefix@)) <= u64::MAX,
        ensures
            r == count_sum(sample_views(self.profile.samples@), passes_through(self.prefix@)),
    {
        let ghost views = sample_views(self.profile.samples@);
        let ghost pred = passes_through(self.prefix@);
        let mut total: u64 = 0;
        let mut i: usize = 0;
        while i < self.profile.samples.len()
            invariant
                views == sample_views(self.profile.samples@),
                pred == passes_through(self.prefix@),
                count_sum(views, pred) <= u64::MAX,
                i <= self.profile.samples@.len(),
                total == count_sum(views.take(i as int), pred),
            decreases self.profile.samples@.len() - i,
        {
            proof {
                assert(views.take(i + 1).drop_last() =~= views.take(i as int));
                assert(views.take(i + 1).last() == self.profile.samples@[i as int]@);
                lemma_count_sum_prefix(views, pred, i + 1);
            }
            let s = &self.profile.samples[i];
            let (starts, _) = reversed_relation(&s.stack, &self.prefix);
            if starts {
                total = total + s.count;
            }
            i = i + 1;
        }
        proof {
            assert(views.take(i as int) =~= views);
        }
        total
    }

    /// The children of this node: the distinct frames that follow this
    /// node's path in some sample, in order of first occurrence.
    pub fn children(&self) -> (r: Vec<TreeNode<'a>>)
        ensures
            r@.len() == fresh_addresses(Set::empty(), next_frames(sample_views(self.profile.samples@), self.prefix@)).len(),
            forall|i: int| 0 <= i < r@.len() ==> {
                &&& #[trigger] r@[i].address == fresh_addresses(Set::empty(), next_frames(sample_views(self.profile.samples@), self.prefix@))[i]
                &&& r@[i].prefix@ == self.prefix@.push(r@[i].address)
                &&& r@[i].profile == self.profile
            },
            forall|i: int, j: int| 0 <= i < j < r@.len() ==> r@[i].address != r@[j].address,
    {
        let ghost views = sample_views(self.profile.samples@);
        let mut next: Vec<u64> = Vec::new();
        let mut i: usize = 0;
        while i < self.profile.samples.len()
            invariant
                views == sample_views(self.profile.samples@),
                i <= self.profile.samples@.len(),
                next@ == next_frames(views.take(i as int), self.prefix@),
            decreases self.profile.samples@.len() - i,
        {
            proof {
                assert(views.take(i + 1).drop_last() =~= views.take(i as int));
                assert(views.take(i + 1).last() == self.profile.samples@[i as int]@);
            }
            let s = &self.profile.samples[i];
            let (starts, _) = reversed_relation(&s.stack, &self.prefix);
            if starts && s.stack.len() > self.prefix.len() {
                let at = s.stack.len() - 1 - self.prefix.len();
                proof {
                    assert(s.stack@.reverse()[self.prefix@.len() as int] == s.stack@[at as int]);
                }
                next.push(s.stack[at]);
            }
            i = i + 1;
        }
        proof {
            assert(views.take(i as int) =~= views);
        }
        let addresses = distinct_in_order(&next);
        proof {
            lemma_fresh_distinct(next@);
        }
        let mut out: Vec<TreeNode<'a>> = Vec::new();
        let mut k: usize = 0;
        while k < addresses.len()
            invariant
                k <= addresses@.len(),
                out@.len() == k,
                forall|j: int| 0 <= j < k ==> {
                    &&& #[trigger] out@[j].address == addresses@[j]
                    &&& out@[j].prefix@ == self.prefix@.push(out@[j].address)
                    &&& out@[j].profile == self.profile
                },
            decreases addresses@.len() - k,
        {
            let mut prefix = copy_u64s(&self.prefix);
            prefix.push(addresses[k]);
            out.push(TreeNode { profile: self.profile, address: addresses[k], prefix });
            k = k + 1;
        }
        out
    }
}

proof fn lemma_count_sum_prefix(s: Seq<SampleView>, pred: spec_fn(SampleView) -> bool, i: int)
    requires
        0 <= i <= s.len(),
    ensures
        count_sum(s.take(i), pred) <= count_sum(s, pred),
    decreases s.len() - i,
{
    if i < s.len() {
        lemma_count_sum_prefix(s.drop_last(), pred, if i == s.len() - 1 { i } else { i });
        assert(s.drop_last().take(i) =~= s.take(i));
        if i == s.len() - 1 {
            assert(s.take(i) =~= s.drop_last());
        }
    } else {
        assert(s.take(i) =~= s);
    }
}

// ---------------------------------------------------------------------------
// Laws of the call tree
// ---------------------------------------------------------------------------

/// The summed total counts of the children `cs` of the node at `prefix`.
pub open spec fn children_total(samples: Seq<SampleView>, prefix: Seq<u64>, cs: Seq<u64>) -> nat
    decreases cs.len(),
{
    if cs.len() == 0 {
        0
    } else {
        children_total(samples, prefix, cs.drop_last()) + count_sum(samples, passes_through(prefix.push(cs.last())))
    }
}

/// The count of `s` once for every child in `cs` its stack passes through.
spec fn child_hits(s: SampleView, prefix: Seq<u64>, cs: Seq<u64>) -> nat
    decreases cs.len(),
{
    if cs.len() == 0 {
        0
    } else {
        child_hits(s, prefix, cs.drop_last()) + if passes_through(prefix.push(cs.last()))(s) {
            s.count as nat
        } else {
            0
        }
    }
}

proof fn lemma_count_sum_push(samples: Seq<SampleView>, s: SampleView, pred: spec_fn(SampleView) -> bool)
    ensures
        count_sum(samples.push(s), pred) == count_sum(samples, pred) + if pred(s) {
            s.count as nat
        } else {
            0
        },
{
    assert(samples.push(s).drop_last() =~= samples);
}

proof fn lemma_children_total_push(samples: Seq<SampleView>, s: SampleView, prefix: Seq<u64>, cs: Seq<u64>)
    ensures
        children_total(samples.push(s), prefix, cs) == children_total(samples, prefix, cs) + child_hits(s, prefix, cs),
    decreases cs.len(),
{
    if cs.len() > 0 {
        lemma_children_total_push(samples, s, prefix, cs.drop_last());
        lemma_count_sum_push(samples, s, passes_through(prefix.push(cs.last())));
    }
}

/// A stack passes through `prefix + [c]` exactly when it passes through
/// `prefix` and its next frame is `c`.
proof fn lemma_passes_child(s: SampleView, prefix: Seq<u64>, c: u64)
    ensures
        passes_through(prefix.push(c))(s) <==> {
            let rev = s.stack.reverse();
            rev.len() > prefix.len() && begins_with(rev, prefix) && rev[prefix.len() as int] == c
        },
{
    let rev = s.stack.reverse();
    let q = prefix.push(c);
    if passes_through(q)(s) {
        assert(rev.take(prefix.len() as int) =~= rev.take(q.len() as int).take(prefix.len() as int));
        assert(rev.take(q.len() as int).take(prefix.len() as int) =~= q.take(prefix.len() as int));
        assert(q.take(prefix.len() as int) =~= prefix);
        assert(rev[prefix.len() as int] == rev.take(q.len() as int)[prefix.len() as int]);
    }
    if rev.len() > prefix.len() && begins_with(rev, prefix) && rev[prefix.len() as int] == c {
        assert(rev.take(q.len() as int) =~= q) by {
            assert forall|i: int| 0 <= i < q.len() implies rev.take(q.len() as int)[i] == q[i] by {
                if i < prefix.len() {
                    assert(rev.take(prefix.len() as int)[i] == prefix[i]);
                }
            }
        }
    }
}

proof fn lemma_child_hits(s: SampleView, prefix: Seq<u64>, cs: Seq<u64>)
    requires
        cs.no_duplicates(),
    ensures
        child_hits(s, prefix, cs) == if s.stack.reverse().len() > prefix.len() && begins_with(s.stack.reverse(), prefix)
            && cs.contains(s.stack.reverse()[prefix.len() as int]) {
            s.count as nat
        } else {
            0
        },
    decreases cs.len(),
{
    if cs.len() > 0 {
        let rest = cs.drop_last();
        assert(rest.no_duplicates()) by {
            assert forall|i: int, j: int| 0 <= i < rest.len() && 0 <= j < rest.len() && i != j implies rest[i] != rest[j] by {
                assert(rest[i] == cs[i] && rest[j] == cs[j]);
            }
        }
        lemma_child_hits(s, prefix, rest);
        lemma_passes_child(s, prefix, cs.last());
        let rev = s.stack.reverse();
        assert(cs =~= rest.push(cs.last()));
        vstd::seq_lib::lemma_seq_contains_after_push(rest, cs.last(), cs.last());
        if rev.len() > prefix.len() {
            vstd::seq_lib::lemma_seq_contains_after_push(rest, cs.last(), rev[prefix.len() as int]);
        }
        if rest.contains(cs.last()) {
            let i = choose|i: int| 0 <= i < rest.len() && rest[i] == cs.last();
            assert(cs[i] == cs[cs.len() - 1]);
        }
    }
}

proof fn lemma_next_frames_grow(samples: Seq<SampleView>, prefix: Seq<u64>, a: u64)
    requires
        samples.len() > 0,
    ensures
        next_frames(samples.drop_last(), prefix).contains(a) ==> next_frames(samples, prefix).contains(a),
        ({
            let rev = samples.last().stack.reverse();
            rev.len() > prefix.len() && begins_with(rev, prefix) ==> next_frames(samples, prefix).contains(rev[prefix.len() as int])
        }),
{
    let before = next_frames(samples.drop_last(), prefix);
    let rev = samples.last().stack.reverse();
    if rev.len() > prefix.len() && begins_with(rev, prefix) {
        vstd::seq_lib::lemma_seq_contains_after_push(before, rev[prefix.len() as int], a);
        vstd::seq_lib::lemma_seq_contains_after_push(before, rev[prefix.len() as int], rev[prefix.len() as int]);
    }
}

proof fn lemma_conservation(samples: Seq<SampleView>, prefix: Seq<u64>, cs: Seq<u64>)
    requires
        cs.no_duplicates(),
        forall|a: u64| next_frames(samples, prefix).contains(a) ==> cs.contains(a),
    ensures
        count_sum(samples, passes_through(prefix)) == count_sum(samples, ends_at(prefix)) + children_total(
            samples,
            prefix,
            cs,
        ),
    decreases samples.len(),
{
    if samples.len() == 0 {
        lemma_children_total_empty(samples, prefix, cs);
    } else {
        let init = samples.drop_last();
        let s = samples.last();
        assert forall|a: u64| next_frames(init, prefix).contains(a) implies cs.contains(a) by {
            lemma_next_frames_grow(samples, prefix, a);
        }
        lemma_conservation(init, prefix, cs);
        assert(init.push(s) =~= samples);
        lemma_count_sum_push(init, s, passes_through(prefix));
        lemma_count_sum_push(init, s, ends_at(prefix));
        lemma_children_total_push(init, s, prefix, cs);
        lemma_child_hits(s, prefix, cs);
        let rev = s.stack.reverse();
        assert(passes_through(prefix)(s) == begins_with(rev, prefix));
        assert(ends_at(prefix)(s) == (rev == prefix));
        if rev == prefix {
            assert(rev.take(prefix.len() as int) =~= rev);
            assert(begins_with(rev, prefix));
            assert(child_hits(s, prefix, cs) == 0);
        } else if begins_with(rev, prefix) {
            assert(rev.len() != prefix.len()) by {
                if rev.len() == prefix.len() {
                    assert(rev.take(prefix.len() as int) =~= rev);
                }
            }
            lemma_next_frames_grow(samples, prefix, rev[prefix.len() as int]);
            assert(cs.contains(rev[prefix.len() as int]));
            assert(child_hits(s, prefix, cs) == s.count as nat);
        } else {
            assert(child_hits(s, prefix, cs) == 0);
        }
    }
}

proof fn lemma_children_total_empty(samples: Seq<SampleView>, prefix: Seq<u64>, cs: Seq<u64>)
    requires
        samples.len() == 0,
    ensures
        children_total(samples, prefix, cs) == 0,
    decreases cs.len(),
{
    if cs.len() > 0 {
        lemma_children_total_empty(samples, prefix, cs.drop_last());
    }
}

/// The distinct elements of a sequence, in order of first occurrence, hold
/// no element twice.
pub proof fn lemma_fresh_distinct(s: Seq<u64>)
    ensures
        fresh_addresses(Set::empty(), s).no_duplicates(),
    decreases s.len(),
{
    if s.len() > 0 {
        lemma_fresh_distinct(s.drop_last());
        let f = fresh_addresses(Set::empty(), s.drop_last());
        let a = s.last();
        if !s.drop_last().contains(a) {
            lemma_fresh_contains(Set::empty(), s.drop_last(), a);
            let g = f.push(a);
            assert forall|i: int, j: int| 0 <= i < g.len() && 0 <= j < g.len() && i != j implies g[i] != g[j] by {
                if i == f.len() && j < f.len() {
                    assert(f.contains(f[j]));
                } else if j == f.len() && i < f.len() {
                    assert(f.contains(f[i]));
                }
            }
        }
    }
}

/// A node's total count is its self count plus the total counts of its
/// children: every sample whose stack passes through a node either ends
/// there or passes through exactly one of its children.
pub proof fn lemma_total_is_self_plus_children(samples: Seq<SampleView>, prefix: Seq<u64>)
    ensures
        count_sum(samples, passes_through(prefix)) == count_sum(samples, ends_at(prefix)) + children_total(
            samples,
            prefix,
            fresh_addresses(Set::empty(), next_frames(samples, prefix)),
        ),
{
    let cs = fresh_addresses(Set::empty(), next_frames(samples, prefix));
    lemma_fresh_distinct(next_frames(samples, prefix));
    assert forall|a: u64| next_frames(samples, prefix).contains(a) implies cs.contains(a) by {
        lemma_fresh_contains(Set::empty(), next_frames(samples, prefix), a);
    }
    lemma_conservation(samples, prefix, cs);
}

proof fn lemma_stack_roots_are_next_frames(samples: Seq<SampleView>)
    ensures
        stack_roots(samples) == next_frames(samples, Seq::empty()),
    decreases samples.len(),
{
    if samples.len() > 0 {
        lemma_stack_roots_are_next_frames(samples.drop_last());
        let st = samples.last().stack;
        let rev = st.reverse();
        assert(rev.take(0) =~= Seq::<u64>::empty());
        if st.len() > 0 {
            assert(rev[0] == st.last());
        }
    }
}

proof fn lemma_count_sum_split(samples: Seq<SampleView>, p: spec_fn(SampleView) -> bool, q: spec_fn(SampleView) -> bool, all: spec_fn(SampleView) -> bool)
    requires
        forall|s: SampleView| #[trigger] all(s) <==> (p(s) || q(s)),
        forall|s: SampleView| !(#[trigger] p(s) && q(s)),
    ensures
        count_sum(samples, all) == count_sum(samples, p) + count_sum(samples, q),
    decreases samples.len(),
{
    if samples.len() > 0 {
        lemma_count_sum_split(samples.drop_last(), p, q, all);
        assert(all(samples.last()) <==> (p(samples.last()) || q(samples.last())));
        assert(!(p(samples.last()) && q(samples.last())));
    }
}

/// The root nodes' total counts add up to the counts of all samples with a
/// non-empty stack.
pub proof fn lemma_roots_cover_samples(samples: Seq<SampleView>)
    ensures
        children_total(samples, Seq::empty(), root_addresses(samples)) == count_sum(
            samples,
            |s: SampleView| s.stack.len() > 0,
        ),
{
    lemma_stack_roots_are_next_frames(samples);
    lemma_total_is_self_plus_children(samples, Seq::empty());
    let nonempty = |s: SampleView| s.stack.len() > 0;
    assert forall|s: SampleView| #[trigger] passes_through(Seq::<u64>::empty())(s) <==> (ends_at(Seq::<u64>::empty())(s) || nonempty(s)) by {
        assert(s.stack.reverse().take(0) =~= Seq::<u64>::empty());
        if s.stack.len() == 0 {
            assert(s.stack.reverse() =~= Seq::<u64>::empty());
        }
    }
    assert forall|s: SampleView| !(#[trigger] ends_at(Seq::<u64>::empty())(s) && nonempty(s)) by {
        if ends_at(Seq::<u64>::empty())(s) {
            assert(s.stack.reverse().len() == 0);
        }
    }
    lemma_count_sum_split(samples, ends_at(Seq::empty()), nonempty, passes_through(Seq::empty()));
}

// ---------------------------------------------------------------------------
// Laws of symbolication
// ---------------------------------------------------------------------------

/// One sample per raw entry with a non-empty stack, with the whole stack.
pub open spec fn whole_samples(entries: Seq<((u64, Seq<u64>), SeriesModel)>) -> Seq<SampleView>
    decreases entries.len(),
{
    if entries.len() == 0 {
        Seq::empty()
    } else {
        let before = whole_samples(entries.drop_last());
        let e = entries.last();
        if e.0.1.len() == 0 {
            before
        } else {
            before.push(SampleView { thread_id: e.0.0, stack: e.0.1, count: e.1.count, timestamp_nanos: None })
        }
    }
}

proof fn lemma_filter_keeps_all(s: Seq<u64>, keep: spec_fn(u64) -> bool)
    requires
        forall|a: u64| #[trigger] keep(a),
    ensures
        s.filter(keep) == s,
    decreases s.len(),
{
    reveal(Seq::filter);
    if s.len() > 0 {
        lemma_filter_keeps_all(s.drop_last(), keep);
        assert(s.drop_last().push(s.last()) =~= s);
    }
}

proof fn lemma_samples_keep_all(entries: Seq<((u64, Seq<u64>), SeriesModel)>, keep: spec_fn(u64) -> bool)
    requires
        forall|a: u64| #[trigger] keep(a),
    ensures
        samples_of(entries, keep) == whole_samples(entries),
    decreases entries.len(),
{
    if entries.len() > 0 {
        lemma_samples_keep_all(entries.drop_last(), keep);
        lemma_filter_keeps_all(entries.last().0.1, keep);
    }
}

/// With `Unresolved::Hex` no sample is silently dropped: every raw entry
/// with a non-empty stack becomes a sample with its whole stack and count,
/// in order, and every address of every stack has a frame.
pub proof fn lemma_hex_drops_nothing(
    p: SymbolicatedProfile,
    raw: RawProfile,
    resolutions: Seq<(u64, Option<(Seq<char>, Seq<char>, u32)>)>,
    freq_hz: u32,
    start_time_unix_nanos: u64,
)
    requires
        assembled(p, raw, resolutions, Unresolved::Hex, freq_hz, start_time_unix_nanos),
    ensures
        sample_views(p.samples@) == whole_samples(raw.stack_entries()),
        forall|a: u64| all_addresses(raw.stack_entries()).contains(a) ==> #[trigger] p.frames@.contains_key(a),
{
    let keep = |a: u64| frame_for(a, resolution_of(resolutions, a), Unresolved::Hex) is Some;
    assert forall|a: u64| #[trigger] keep(a) by {}
    lemma_samples_keep_all(raw.stack_entries(), keep);
}

} // verus!
