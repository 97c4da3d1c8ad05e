//! Raw sample bookkeeping shared by the platform samplers.

use std::collections::HashMap;

use vstd::prelude::*;

pub mod linux;
pub mod macos;

use crate::assoc::{
    assoc_map, keys_unique, lemma_assoc_absent, lemma_assoc_map, lemma_assoc_push,
    lemma_assoc_take, lemma_assoc_update, lemma_unique_push, lookup,
};

verus! {

broadcast use vstd::std_specs::hash::group_hash_axioms;

/// A loaded image (shared library or executable) in the target process.
#[derive(Debug, Clone, PartialEq, Eq)]
pub struct LoadedImage {
    /// Address at which the image's text segment was loaded.
    pub load_address: u64,
    /// Path to the binary on disk.
    pub path: String,
}

/// A single stack sample with the thread identity that produced it.
pub struct ThreadSample {
    pub thread_id: u64,
    pub thread_name: String,
    pub stack: Vec<u64>,
    pub timestamp_nanos: u64,
}

/// Aggregated observations of one `(thread, stack)` pair.
#[derive(Debug, Clone, PartialEq, Eq)]
pub struct RawSampleSeries {
    pub count: u64,
    pub timestamps_nanos: Option<Vec<u64>>,
}

/// The mathematical content of a series: its count and its timestamps.
#[verifier::ext_equal]
pub struct SeriesModel {
    pub count: u64,
    pub timestamps: Option<Seq<u64>>,
}

impl RawSampleSeries {
    pub open spec fn view(&self) -> SeriesModel {
        SeriesModel {
            count: self.count,
            timestamps: match self.timestamps_nanos {
                Some(v) => Some(v@),
                None => None,
            },
        }
    }

    /// A series of `count` observations without timestamps.
    pub fn untimed(count: u64) -> (r: Self)
        ensures
            r.count == count,
            r.timestamps_nanos.is_none(),
    {
        RawSampleSeries { count, timestamps_nanos: None }
    }

    /// A series with one observation per timestamp.
    pub fn timed(timestamps_nanos: Vec<u64>) -> (r: Self)
        ensures
            r.count == timestamps_nanos@.len(),
            r.timestamps_nanos matches Some(t) && t@ == timestamps_nanos@,
    {
        RawSampleSeries { count: timestamps_nanos.len() as u64, timestamps_nanos: Some(timestamps_nanos) }
    }

    /// Records one more observation at `timestamp_nanos`.
    pub fn push_timestamp(&mut self, timestamp_nanos: u64)
        ensures
            final(self)@ == series_after_push(Some(old(self)@), timestamp_nanos),
            final(self).count == (if old(self).count == u64::MAX {
                u64::MAX
            } else {
                (old(self).count + 1) as u64
            }),
            final(self)@.timestamps == Some(
                match old(self)@.timestamps {
                    Some(t) => t,
                    None => Seq::<u64>::empty(),
                }.push(timestamp_nanos),
            ),
    {
        self.count = self.count.saturating_add(1);
        match &mut self.timestamps_nanos {
            Some(v) => v.push(timestamp_nanos),
            None => {
                let mut v: Vec<u64> = Vec::new();
                v.push(timestamp_nanos);
                self.timestamps_nanos = Some(v);
            },
        }
    }
}

/// The series that results from recording one observation at `timestamp`
/// on top of `previous` (a fresh, empty timed series when there is none).
pub open spec fn series_after_push(previous: Option<SeriesModel>, timestamp: u64) -> SeriesModel {
    let base = match previous {
        Some(s) => s,
        None => SeriesModel { count: 0, timestamps: Some(Seq::empty()) },
    };
    SeriesModel {
        count: if base.count == u64::MAX {
            u64::MAX
        } else {
            (base.count + 1) as u64
        },
        timestamps: Some(
            match base.timestamps {
                Some(t) => t,
                None => Seq::empty(),
            }.push(timestamp),
        ),
    }
}

/// Controls which threads are sampled.
#[derive(Debug, Clone, PartialEq, Eq)]
pub enum ThreadFilter {
    /// Sample all threads (default).
    All,
    /// Sample only the main thread (the first in the OS thread list).
    MainThread,
    /// Sample only threads whose name contains this substring.
    ByName(String),
    /// Sample only the thread with this numeric thread ID.
    ById(u64),
    /// Sample only the thread with this Mach thread port (pins a closure
    /// profile to the calling thread).
    ByMachThread(u32),
}

impl Default for ThreadFilter {
    fn default() -> (r: Self)
        ensures
            r == ThreadFilter::All,
    {
        ThreadFilter::All
    }
}

/// `needle` occurs in `haystack` as a contiguous run.
pub open spec fn contains_seq(haystack: Seq<char>, needle: Seq<char>) -> bool {
    exists|i: int| 0 <= i <= haystack.len() - needle.len() && #[trigger] haystack.subrange(i, i + needle.len()) == needle
}

/// Whether `needle` occurs in `haystack`.
pub fn str_contains(haystack: &str, needle: &str) -> (r: bool)
    ensures
        r == contains_seq(haystack@, needle@),
{
    let h = chars_of(haystack);
    let n = chars_of(needle);
    if n.len() > h.len() {
        return false;
    }
    let mut i: usize = 0;
    while i <= h.len() - n.len()
        invariant
            h@ == haystack@,
            n@ == needle@,
            n@.len() <= h@.len(),
            0 <= i <= h@.len() - n@.len() + 1,
            forall|k: int| 0 <= k < i ==> #[trigger] h@.subrange(k, k + n@.len()) != n@,
        decreases h@.len() - n@.len() + 1 - i,
    {
        let mut j: usize = 0;
        let mut same = true;
        while j < n.len()
            invariant
                h@ == haystack@,
                n@ == needle@,
                i + n.len() <= h.len(),
                0 <= j <= n@.len(),
                same == (forall|t: int| 0 <= t < j ==> h@[i + t] == n@[t]),
            decreases n@.len() - j,
        {
            assert(i + j < h.len());
            let k: usize = i + j;
            if h[k] != n[j] {
                same = false;
            }
            j = j + 1;
        }
        if same {
            assert(h@.subrange(i as int, i + n@.len()) =~= n@);
            return true;
        }
        assert(h@.subrange(i as int, i + n@.len())[0] == h@[i as int] || n@.len() == 0);
        proof {
            if h@.subrange(i as int, i + n@.len()) == n@ {
                assert forall|t: int| 0 <= t < n@.len() implies h@[i + t] == n@[t] by {
                    assert(h@.subrange(i as int, i + n@.len())[t] == h@[i + t]);
                }
            }
        }
        i = i + 1;
    }
    false
}

/// The characters of `s`, in order.
pub fn chars_of(s: &str) -> (r: Vec<char>)
    ensures
        r@ == s@,
{
    broadcast use vstd::string::group_string_axioms;

    let mut out: Vec<char> = Vec::new();
    for c in it: s.chars()
        invariant
            it.seq() == s@,
            out@ == s@.take(it.index() as int),
    {
        assert(s@.take(it.index() + 1) =~= s@.take(it.index() as int).push(c));
        out.push(c);
    }
    assert(s@.take(s@.len() as int) =~= s@);
    out
}

} // verus!

verus! {

/// A `(thread, stack)` key and its series, as mathematical values.
pub open spec fn stack_entry_view(e: ((u64, Vec<u64>), RawSampleSeries)) -> ((u64, Seq<u64>), SeriesModel) {
    ((e.0.0, e.0.1@), e.1@)
}

/// Raw sample data accumulated across the profiling session.
///
/// The stack table is kept as a vector of pairs with distinct keys (see
/// `wf`); its meaning is the map given by `stack_map`.  Thread names are kept
/// in a map, given by `name_map`.  Times are
/// nanoseconds on the sampler's monotonic clock.
#[derive(Debug, Clone)]
pub struct RawProfile {
    /// `(thread_id, stack)` with its counts and optional observation timestamps.
    pub stacks: Vec<((u64, Vec<u64>), RawSampleSeries)>,
    /// Thread ID with the last-observed thread name.
    pub thread_names: HashMap<u64, String>,
    pub start_time_nanos: u64,
    pub end_time_nanos: u64,
    /// Loaded images captured from the target at profile end (for symbolication).
    pub images: Vec<LoadedImage>,
}

impl RawProfile {
    pub open spec fn stack_entries(&self) -> Seq<((u64, Seq<u64>), SeriesModel)> {
        self.stacks@.map_values(|e: ((u64, Vec<u64>), RawSampleSeries)| stack_entry_view(e))
    }

    /// The series recorded for each `(thread, stack)`.
    pub open spec fn stack_map(&self) -> Map<(u64, Seq<u64>), SeriesModel> {
        assoc_map(self.stack_entries())
    }

    /// The last-observed name of each thread.
    pub open spec fn name_map(&self) -> Map<u64, Seq<char>> {
        self.thread_names@.map_values(|s: String| s@)
    }

    /// No key occurs twice in the stack table.
    pub open spec fn wf(&self) -> bool {
        keys_unique(self.stack_entries())
    }

    /// An empty profile whose session started at `start_time_nanos`.
    pub fn new(start_time_nanos: u64) -> (r: Self)
        ensures
            r.wf(),
            r.stack_map() == Map::<(u64, Seq<u64>), SeriesModel>::empty(),
            r.name_map() == Map::<u64, Seq<char>>::empty(),
            r.start_time_nanos == start_time_nanos,
            r.end_time_nanos == start_time_nanos,
            r.images@.len() == 0,
            r.stacks@.len() == 0,
            r.thread_names@.len() == 0,
    {
        let r = RawProfile {
            stacks: Vec::new(),
            thread_names: HashMap::new(),
            start_time_nanos,
            end_time_nanos: start_time_nanos,
            images: Vec::new(),
        };
        assert(r.stack_entries() =~= Seq::empty());
        assert(r.name_map() =~= Map::<u64, Seq<char>>::empty());
        r
    }

    /// Position of the entry for `(thread_id, stack)` in `stacks`.
    pub fn find_stack(&self, thread_id: u64, stack: &Vec<u64>) -> (r: Option<usize>)
        ensures
            match r {
                Some(i) => i < self.stacks@.len() && self.stack_entries()[i as int].0 == (
                    thread_id,
                    stack@,
                ),
                None => !self.stack_map().contains_key((thread_id, stack@)),
            },
    {
        let mut i: usize = 0;
        while i < self.stacks.len()
            invariant
                i <= self.stacks@.len(),
                forall|j: int|
                    0 <= j < i ==> #[trigger] self.stack_entries()[j].0 != (thread_id, stack@),
            decreases self.stacks@.len() - i,
        {
            let ghost e = self.stack_entries()[i as int];
            assert(e == stack_entry_view(self.stacks@[i as int]));
            if self.stacks[i].0.0 == thread_id && same_addresses(&self.stacks[i].0.1, stack) {
                return Some(i);
            }
            i = i + 1;
        }
        proof {
            lemma_assoc_absent(self.stack_entries(), (thread_id, stack@));
        }
        None
    }

    /// The series recorded for `(thread_id, stack)`, if any.
    pub fn series(&self, thread_id: u64, stack: &Vec<u64>) -> (r: Option<&RawSampleSeries>)
        requires
            self.wf(),
        ensures
            match r {
                Some(s) => lookup(self.stack_map(), (thread_id, stack@)) == Some(s@),
                None => lookup(self.stack_map(), (thread_id, stack@)) is None,
            },
    {
        match self.find_stack(thread_id, stack) {
            Some(i) => {
                proof {
                    lemma_assoc_map(self.stack_entries());
                    assert(self.stack_entries()[i as int] == stack_entry_view(self.stacks@[i as int]));
                }
                Some(&self.stacks[i].1)
            },
            None => None,
        }
    }

    /// The last-observed name of `thread_id`, if any.
    pub fn thread_name(&self, thread_id: u64) -> (r: Option<&String>)
        requires
            self.wf(),
        ensures
            match r {
                Some(s) => lookup(self.name_map(), thread_id) == Some(s@),
                None => lookup(self.name_map(), thread_id) is None,
            },
    {
        self.thread_names.get(&thread_id)
    }

    /// Sets the series of `(thread_id, stack)`, replacing any earlier one.
    pub fn insert_series(&mut self, thread_id: u64, stack: Vec<u64>, series: RawSampleSeries)
        requires
            old(self).wf(),
        ensures
            final(self).wf(),
            final(self).stack_map() == old(self).stack_map().insert((thread_id, stack@), series@),
            final(self).name_map() == old(self).name_map(),
            final(self).thread_names == old(self).thread_names,
            final(self).start_time_nanos == old(self).start_time_nanos,
            final(self).end_time_nanos == old(self).end_time_nanos,
            final(self).images == old(self).images,
    {
        let ghost key = (thread_id, stack@);
        let ghost new_entry = (key, series@);
        match self.find_stack(thread_id, &stack) {
            Some(i) => {
                let ghost before = self.stack_entries();
                self.stacks.set(i, ((thread_id, stack), series));
                proof {
                    assert(self.stack_entries() =~= before.update(i as int, (before[i as int].0, series@)));
                    lemma_assoc_update(before, i as int, series@);
                }
            },
            None => {
                let ghost before = self.stack_entries();
                proof {
                    lemma_assoc_map(before);
                    assert forall|j: int| 0 <= j < before.len() implies #[trigger] before[j].0 != key by {
                        if before[j].0 == key {
                            assert(self.stack_map().contains_key(key));
                        }
                    }
                    lemma_unique_push(before, key, series@);
                    lemma_assoc_push(before, key, series@);
                }
                self.stacks.push(((thread_id, stack), series));
                proof {
                    assert(self.stack_entries() =~= before.push(new_entry));
                }
            },
        }
    }

    /// Records `name` as the last-observed name of `thread_id`.
    pub fn set_thread_name(&mut self, thread_id: u64, name: String)
        requires
            old(self).wf(),
        ensures
            final(self).wf(),
            final(self).name_map() == old(self).name_map().insert(thread_id, name@),
            final(self).stacks == old(self).stacks,
            final(self).start_time_nanos == old(self).start_time_nanos,
            final(self).end_time_nanos == old(self).end_time_nanos,
            final(self).images == old(self).images,
    {
        let ghost before = self.thread_names@;
        self.thread_names.insert(thread_id, name);
        proof {
            assert(self.name_map() =~= old(self).name_map().insert(thread_id, name@));
        }
    }

    /// Records one observed sample: its stack gets one more observation at
    /// the sample's timestamp (a new timed series when the stack is new), and
    /// a non-empty thread name becomes the thread's last-observed name.
    /// Samples with an empty stack are ignored.
    pub fn record_sample(&mut self, sample: ThreadSample)
        requires
            old(self).wf(),
        ensures
            final(self).wf(),
            final(self).start_time_nanos == old(self).start_time_nanos,
            final(self).end_time_nanos == old(self).end_time_nanos,
            final(self).images == old(self).images,
            sample.stack@.len() == 0 ==> final(self).stack_map() == old(self).stack_map()
                && final(self).name_map() == old(self).name_map(),
            sample.stack@.len() > 0 ==> final(self).stack_map() == old(self).stack_map().insert(
                (sample.thread_id, sample.stack@),
                series_after_push(
                    lookup(old(self).stack_map(), (sample.thread_id, sample.stack@)),
                    sample.timestamp_nanos,
                ),
            ),
            sample.stack@.len() > 0 ==> final(self).name_map() == (if sample.thread_name@.len()
                == 0 {
                old(self).name_map()
            } else {
                old(self).name_map().insert(sample.thread_id, sample.thread_name@)
            }),
    {
        let ThreadSample { thread_id, thread_name, stack, timestamp_nanos } = sample;
        if stack.len() == 0 {
            return;
        }
        let ghost key = (thread_id, stack@);
        let series = match self.series(thread_id, &stack) {
            Some(existing) => {
                let mut s = existing.duplicate();
                s.push_timestamp(timestamp_nanos);
                s
            },
            None => {
                let mut s = RawSampleSeries::timed(Vec::new());
                proof {
                    assert(s@ == SeriesModel { count: 0, timestamps: Some(Seq::<u64>::empty()) });
                }
                s.push_timestamp(timestamp_nanos);
                s
            },
        };
        self.insert_series(thread_id, stack, series);
        if !thread_name.as_str().is_empty() {
            self.set_thread_name(thread_id, thread_name);
        }
    }

    /// Records every sample of one sampling round, in order, and marks the
    /// profile as observed up to `end_time_nanos`.
    pub fn record_round(&mut self, round: Vec<ThreadSample>, end_time_nanos: u64)
        requires
            old(self).wf(),
        ensures
            final(self).wf(),
            final(self).stack_map() == recorded_stacks(old(self).stack_map(), round@),
            final(self).name_map() == recorded_names(old(self).name_map(), round@),
            final(self).start_time_nanos == old(self).start_time_nanos,
            final(self).end_time_nanos == end_time_nanos,
            final(self).images == old(self).images,
    {
        let ghost samples = round@;
        let ghost start_stacks = self.stack_map();
        let ghost start_names = self.name_map();
        let mut k: usize = 0;
        let mut round = round;
        let total: usize = round.len();
        assert(samples.len() == total);
        while round.len() > 0
            invariant
                self.wf(),
                round@ =~= samples.skip(k as int),
                k <= samples.len(),
                samples.len() <= usize::MAX,
                self.stack_map() == recorded_stacks(start_stacks, samples.take(k as int)),
                self.name_map() == recorded_names(start_names, samples.take(k as int)),
                self.start_time_nanos == old(self).start_time_nanos,
                self.end_time_nanos == old(self).end_time_nanos,
                self.images == old(self).images,
            decreases round@.len(),
        {
            let sample = round.remove(0);
            proof {
                assert(samples.take(k as int + 1).drop_last() =~= samples.take(k as int));
                assert(samples.take(k as int + 1).last() == samples[k as int]);
                assert(samples.skip(k as int + 1) =~= samples.skip(k as int).drop_first());
            }
            self.record_sample(sample);
            k = k + 1;
        }
        proof {
            assert(samples.take(k as int) =~= samples);
        }
        self.end_time_nanos = end_time_nanos;
    }
}

/// The series table after recording `samples` in order on top of `m`.
pub open spec fn recorded_stacks(
    m: Map<(u64, Seq<u64>), SeriesModel>,
    samples: Seq<ThreadSample>,
) -> Map<(u64, Seq<u64>), SeriesModel>
    decreases samples.len(),
{
    if samples.len() == 0 {
        m
    } else {
        let before = recorded_stacks(m, samples.drop_last());
        let s = samples.last();
        if s.stack@.len() == 0 {
            before
        } else {
            before.insert(
                (s.thread_id, s.stack@),
                series_after_push(lookup(before, (s.thread_id, s.stack@)), s.timestamp_nanos),
            )
        }
    }
}

/// The thread-name table after recording `samples` in order on top of `m`.
pub open spec fn recorded_names(m: Map<u64, Seq<char>>, samples: Seq<ThreadSample>) -> Map<
    u64,
    Seq<char>,
>
    decreases samples.len(),
{
    if samples.len() == 0 {
        m
    } else {
        let before = recorded_names(m, samples.drop_last());
        let s = samples.last();
        if s.stack@.len() == 0 || s.thread_name@.len() == 0 {
            before
        } else {
            before.insert(s.thread_id, s.thread_name@)
        }
    }
}

impl RawSampleSeries {
    /// A copy of this series.
    pub fn duplicate(&self) -> (r: Self)
        ensures
            r@ == self@,
    {
        let timestamps_nanos = match &self.timestamps_nanos {
            Some(v) => Some(copy_u64s(v)),
            None => None,
        };
        RawSampleSeries { count: self.count, timestamps_nanos }
    }
}

/// A copy of `v`.
pub fn copy_u64s(v: &Vec<u64>) -> (r: Vec<u64>)
    ensures
        r@ == v@,
{
    let mut out: Vec<u64> = Vec::new();
    let mut i: usize = 0;
    while i < v.len()
        invariant
            i <= v@.len(),
            out@ == v@.take(i as int),
        decreases v@.len() - i,
    {
        out.push(v[i]);
        i = i + 1;
        assert(out@ =~= v@.take(i as int));
    }
    assert(v@.take(i as int) =~= v@);
    out
}

/// Whether two address lists are equal.
pub fn same_addresses(a: &Vec<u64>, b: &Vec<u64>) -> (r: bool)
    ensures
        r == (a@ == b@),
{
    if a.len() != b.len() {
        return false;
    }
    let mut i: usize = 0;
    while i < a.len()
        invariant
            a@.len() == b@.len(),
            i <= a@.len(),
            forall|j: int| 0 <= j < i ==> a@[j] == b@[j],
        decreases a@.len() - i,
    {
        if a[i] != b[i] {
            return false;
        }
        i = i + 1;
    }
    assert(a@ =~= b@);
    true
}

} // verus!

verus! {

/// Observations of `k` already published according to `counts`.
pub open spec fn previous_count(counts: Map<(u64, Seq<u64>), u64>, k: (u64, Seq<u64>)) -> u64 {
    if counts.contains_key(k) {
        counts[k]
    } else {
        0
    }
}

/// `k` has observations in `stacks` beyond those published in `counts`.
pub open spec fn is_fresh(
    stacks: Map<(u64, Seq<u64>), SeriesModel>,
    counts: Map<(u64, Seq<u64>), u64>,
    k: (u64, Seq<u64>),
) -> bool {
    stacks.contains_key(k) && stacks[k].count > previous_count(counts, k)
}

/// The part of `s` after its first `previous` observations.
pub open spec fn series_since(s: SeriesModel, previous: u64) -> SeriesModel {
    SeriesModel {
        count: (s.count - previous) as u64,
        timestamps: match s.timestamps {
            Some(t) => Some(
                if previous <= t.len() {
                    t.skip(previous as int)
                } else {
                    Seq::empty()
                },
            ),
            None => None,
        },
    }
}

/// The unpublished part of every fresh series.
pub open spec fn delta_map(
    stacks: Map<(u64, Seq<u64>), SeriesModel>,
    counts: Map<(u64, Seq<u64>), u64>,
) -> Map<(u64, Seq<u64>), SeriesModel> {
    Map::new(
        |k: (u64, Seq<u64>)| is_fresh(stacks, counts, k),
        |k: (u64, Seq<u64>)| series_since(stacks[k], previous_count(counts, k)),
    )
}

/// The published counts once every fresh series has been published.
pub open spec fn advanced_counts(
    counts: Map<(u64, Seq<u64>), u64>,
    stacks: Map<(u64, Seq<u64>), SeriesModel>,
) -> Map<(u64, Seq<u64>), u64> {
    Map::new(
        |k: (u64, Seq<u64>)| counts.contains_key(k) || is_fresh(stacks, counts, k),
        |k: (u64, Seq<u64>)|
            if is_fresh(stacks, counts, k) {
                stacks[k].count
            } else {
                counts[k]
            },
    )
}

/// What a sampling loop does next.
#[derive(Debug, Clone, Copy, PartialEq, Eq)]
pub enum LoopStep {
    /// Leave the loop; the sampler then reads the images once more and
    /// returns what it recorded.
    Finish,
    /// Take one sampling pass (drain the perf rings, for the calling
    /// process), re-reading the target's images first when
    /// `refresh_images`, then wait one interval.
    Sample { refresh_images: bool },
}

/// The clock of a sampling loop, in nanoseconds on a monotonic clock.
#[derive(Debug, Clone, Copy, PartialEq, Eq)]
pub struct SamplingClock {
    /// When to finish, if sampling is time-limited.
    pub deadline_nanos: Option<u64>,
    /// When the target's images are next re-read.
    pub next_image_refresh_nanos: u64,
}

/// Nanoseconds between two readings of the target's images.
pub const IMAGE_REFRESH_INTERVAL_NANOS: u64 = 500_000_000;

/// Whether `now` is at or past the deadline, if there is one.
pub open spec fn deadline_passed(deadline: Option<u64>, now: u64) -> bool {
    match deadline {
        Some(d) => now >= d,
        None => false,
    }
}

/// One turn of a sampling loop that re-reads the target's images while it
/// runs, given whether a stop was requested, whether the sampled child has
/// exited and the time: it finishes on a stop, the child's exit or the
/// deadline, and otherwise samples, re-reading the images first when their
/// refresh is due (the next one is then due 500 ms later).
pub fn sampling_loop_step(clock: &mut SamplingClock, stop_requested: bool, child_exited: bool, now_nanos: u64) -> (r: LoopStep)
    ensures
        final(clock).deadline_nanos == old(clock).deadline_nanos,
        (stop_requested || child_exited || deadline_passed(old(clock).deadline_nanos, now_nanos)) ==> r
            == LoopStep::Finish && *final(clock) == *old(clock),
        !(stop_requested || child_exited || deadline_passed(old(clock).deadline_nanos, now_nanos)) ==> if now_nanos
            >= old(clock).next_image_refresh_nanos {
            r == (LoopStep::Sample { refresh_images: true }) && final(clock).next_image_refresh_nanos == (
            if now_nanos + IMAGE_REFRESH_INTERVAL_NANOS > u64::MAX {
                u64::MAX
            } else {
                (now_nanos + IMAGE_REFRESH_INTERVAL_NANOS) as u64
            })
        } else {
            r == (LoopStep::Sample { refresh_images: false }) && *final(clock) == *old(clock)
        },
{
    let deadline_reached = match clock.deadline_nanos {
        Some(d) => now_nanos >= d,
        None => false,
    };
    if stop_requested || child_exited || deadline_reached {
        return LoopStep::Finish;
    }
    if now_nanos >= clock.next_image_refresh_nanos {
        clock.next_image_refresh_nanos = now_nanos.saturating_add(IMAGE_REFRESH_INTERVAL_NANOS);
        LoopStep::Sample { refresh_images: true }
    } else {
        LoopStep::Sample { refresh_images: false }
    }
}

/// Once a cursor has taken a profile's delta, the same profile has nothing
/// left to publish: a second `delta` of it is `None`.
pub proof fn lemma_delta_exhausts(
    counts: Map<(u64, Seq<u64>), u64>,
    stacks: Map<(u64, Seq<u64>), SeriesModel>,
)
    ensures
        delta_map(stacks, advanced_counts(counts, stacks)) == Map::<(u64, Seq<u64>), SeriesModel>::empty(),
{
    let advanced = advanced_counts(counts, stacks);
    assert forall|k: (u64, Seq<u64>)| !#[trigger] is_fresh(stacks, advanced, k) by {
        if is_fresh(stacks, counts, k) {
            assert(advanced.contains_key(k) && advanced[k] == stacks[k].count);
        } else if counts.contains_key(k) {
            assert(advanced.contains_key(k) && advanced[k] == counts[k]);
        }
    }
    assert(delta_map(stacks, advanced) =~= Map::<(u64, Seq<u64>), SeriesModel>::empty());
}

/// After a delta, the cursor has published every observation of every
/// stack that has not fallen below what it had published, and a stack's
/// delta holds exactly the observations beyond those published before.
pub proof fn lemma_delta_catches_up(
    counts: Map<(u64, Seq<u64>), u64>,
    stacks: Map<(u64, Seq<u64>), SeriesModel>,
    k: (u64, Seq<u64>),
)
    requires
        stacks.contains_key(k),
        previous_count(counts, k) <= stacks[k].count,
    ensures
        previous_count(advanced_counts(counts, stacks), k) == stacks[k].count,
        delta_map(stacks, counts).contains_key(k) ==> previous_count(counts, k) + delta_map(stacks, counts)[k].count
            == stacks[k].count,
{
}

/// Remembers, per `(thread, stack)`, how many observations were already
/// published, so that successive snapshots of a growing profile can be sent
/// as deltas.
#[derive(Debug, Clone)]
pub struct RawProfileCursor {
    counts: Vec<((u64, Vec<u64>), u64)>,
}

impl Default for RawProfileCursor {
    fn default() -> (r: Self)
        ensures
            r.wf(),
            r.count_map() == Map::<(u64, Seq<u64>), u64>::empty(),
    {
        let r = RawProfileCursor { counts: Vec::new() };
        assert(r.count_entries() =~= Seq::empty());
        r
    }
}

impl RawProfileCursor {
    pub closed spec fn count_entries(&self) -> Seq<((u64, Seq<u64>), u64)> {
        self.counts@.map_values(|e: ((u64, Vec<u64>), u64)| ((e.0.0, e.0.1@), e.1))
    }

    /// The number of observations published so far for each key.
    pub closed spec fn count_map(&self) -> Map<(u64, Seq<u64>), u64> {
        assoc_map(self.count_entries())
    }

    pub closed spec fn wf(&self) -> bool {
        keys_unique(self.count_entries())
    }

    fn find(&self, thread_id: u64, stack: &Vec<u64>) -> (r: Option<usize>)
        ensures
            match r {
                Some(i) => i < self.counts@.len() && self.count_entries()[i as int].0 == (
                    thread_id,
                    stack@,
                ),
                None => !self.count_map().contains_key((thread_id, stack@)),
            },
    {
        let mut i: usize = 0;
        while i < self.counts.len()
            invariant
                i <= self.counts@.len(),
                forall|j: int|
                    0 <= j < i ==> #[trigger] self.count_entries()[j].0 != (thread_id, stack@),
            decreases self.counts@.len() - i,
        {
            if self.counts[i].0.0 == thread_id && same_addresses(&self.counts[i].0.1, stack) {
                return Some(i);
            }
            i = i + 1;
        }
        proof {
            lemma_assoc_absent(self.count_entries(), (thread_id, stack@));
        }
        None
    }

    fn published(&self, thread_id: u64, stack: &Vec<u64>) -> (r: u64)
        requires
            self.wf(),
        ensures
            r == previous_count(self.count_map(), (thread_id, stack@)),
    {
        match self.find(thread_id, stack) {
            Some(i) => {
                proof {
                    lemma_assoc_map(self.count_entries());
                }
                self.counts[i].1
            },
            None => 0,
        }
    }

    fn set_published(&mut self, thread_id: u64, stack: Vec<u64>, count: u64)
        requires
            old(self).wf(),
        ensures
            final(self).wf(),
            final(self).count_map() == old(self).count_map().insert((thread_id, stack@), count),
    {
        let ghost key = (thread_id, stack@);
        let ghost before = self.count_entries();
        match self.find(thread_id, &stack) {
            Some(i) => {
                self.counts.set(i, ((thread_id, stack), count));
                proof {
                    assert(self.count_entries() =~= before.update(i as int, (before[i as int].0, count)));
                    lemma_assoc_update(before, i as int, count);
                }
            },
            None => {
                proof {
                    lemma_assoc_map(before);
                    assert forall|j: int| 0 <= j < before.len() implies #[trigger] before[j].0 != key by {
                        if before[j].0 == key {
                            assert(self.count_map().contains_key(key));
                        }
                    }
                    lemma_unique_push(before, key, count);
                    lemma_assoc_push(before, key, count);
                }
                self.counts.push(((thread_id, stack), count));
                proof {
                    assert(self.count_entries() =~= before.push((key, count)));
                }
            },
        }
    }

    /// The observations of `profile` not yet published through this cursor,
    /// or `None` when there are none; the cursor then counts them as published.
    pub fn delta(&mut self, profile: &RawProfile) -> (r: Option<RawProfile>)
        requires
            old(self).wf(),
            profile.wf(),
        ensures
            final(self).wf(),
            final(self).count_map() == advanced_counts(old(self).count_map(), profile.stack_map()),
            r is None <==> delta_map(profile.stack_map(), old(self).count_map()) == Map::<
                (u64, Seq<u64>),
                SeriesModel,
            >::empty(),
            r matches Some(d) ==> {
                &&& d.wf()
                &&& d.stack_map() == delta_map(profile.stack_map(), old(self).count_map())
                &&& d.name_map() == profile.name_map()
                &&& d.start_time_nanos == profile.start_time_nanos
                &&& d.end_time_nanos == profile.end_time_nanos
                &&& d.images@ == profile.images@
            },
    {
        let ghost entries = profile.stack_entries();
        let ghost start = self.count_map();
        let mut out = RawProfile::new(profile.start_time_nanos);
        let mut i: usize = 0;
        while i < profile.stacks.len()
            invariant
                i <= profile.stacks@.len(),
                entries == profile.stack_entries(),
                keys_unique(entries),
                self.wf(),
                out.wf(),
                out.name_map() == Map::<u64, Seq<char>>::empty(),
                out.start_time_nanos == profile.start_time_nanos,
                out.stack_map() == delta_map(assoc_map(entries.take(i as int)), start),
                self.count_map() == advanced_counts(start, assoc_map(entries.take(i as int))),
                out.stacks@.len() == 0 <==> out.stack_map() == Map::<(u64, Seq<u64>), SeriesModel>::empty(),
            decreases profile.stacks@.len() - i,
        {
            let ghost prefix = assoc_map(entries.take(i as int));
            let ghost key = entries[i as int].0;
            let ghost s = entries[i as int].1;
            let ghost next = assoc_map(entries.take(i as int + 1));
            proof {
                assert(entries[i as int] == stack_entry_view(profile.stacks@[i as int]));
                lemma_assoc_take(entries, i as int);
                assert(next == prefix.insert(key, s));
                lemma_assoc_map(entries.take(i as int));
                if prefix.contains_key(key) {
                    let j = choose|j: int| 0 <= j < entries.take(i as int).len() && #[trigger] entries.take(i as int)[j].0 == key;
                    assert(entries[j].0 == entries[i as int].0);
                }
                assert(!prefix.contains_key(key));
            }
            let thread_id = profile.stacks[i].0.0;
            let previous = self.published(thread_id, &profile.stacks[i].0.1);
            proof {
                assert(previous == previous_count(start, key));
            }
            let series = &profile.stacks[i].1;
            if series.count > previous {
                let timestamps_nanos = match &series.timestamps_nanos {
                    Some(t) => Some(copy_from(t, previous)),
                    None => None,
                };
                let delta_series = RawSampleSeries { count: series.count - previous, timestamps_nanos };
                proof {
                    assert(delta_series@ == series_since(s, previous));
                }
                let ghost out_before = out.stack_map();
                out.insert_series(thread_id, copy_u64s(&profile.stacks[i].0.1), delta_series);
                self.set_published(thread_id, copy_u64s(&profile.stacks[i].0.1), series.count);
                proof {
                    assert(out.stack_map() =~= delta_map(next, start)) by {
                        assert forall|k: (u64, Seq<u64>)| #[trigger] delta_map(next, start).contains_key(k) <==> out.stack_map().contains_key(k) by {}
                    }
                    assert(self.count_map() =~= advanced_counts(start, next));
                    lemma_assoc_map(out.stack_entries());
                    assert(out.stack_map().contains_key(key));
                    if out.stacks@.len() == 0 {
                        assert(out.stack_entries().len() == 0);
                    }
                    assert(out.stacks@.len() != 0);
                    assert(out.stack_map() != Map::<(u64, Seq<u64>), SeriesModel>::empty()) by {
                        assert(!Map::<(u64, Seq<u64>), SeriesModel>::empty().contains_key(key));
                    }
                }
            } else {
                proof {
                    assert(out.stack_map() =~= delta_map(next, start));
                    assert(self.count_map() =~= advanced_counts(start, next));
                }
            }
            i = i + 1;
        }
        proof {
            assert(entries.take(i as int) =~= entries);
            assert(assoc_map(entries.take(i as int)) == profile.stack_map());
        }
        if out.stacks.len() == 0 {
            return None;
        }
        out.thread_names = profile.thread_names.clone();
        proof {
            assert(out.name_map() =~= profile.name_map());
            assert(out.wf());
        }
        out.end_time_nanos = profile.end_time_nanos;
        out.images = copy_images(&profile.images);
        Some(out)
    }
}

/// The elements of `v` after the first `start`, or none when `v` is shorter.
pub fn copy_from(v: &Vec<u64>, start: u64) -> (r: Vec<u64>)
    ensures
        r@ == (if start <= v@.len() {
            v@.skip(start as int)
        } else {
            Seq::empty()
        }),
{
    let mut out: Vec<u64> = Vec::new();
    if start >= v.len() as u64 {
        assert(start == v@.len() ==> v@.skip(start as int) =~= Seq::<u64>::empty());
        return out;
    }
    let mut i: usize = start as usize;
    while i < v.len()
        invariant
            start <= i <= v@.len(),
            out@ == v@.subrange(start as int, i as int),
        decreases v@.len() - i,
    {
        out.push(v[i]);
        i = i + 1;
        assert(out@ =~= v@.subrange(start as int, i as int));
    }
    assert(v@.subrange(start as int, i as int) =~= v@.skip(start as int));
    out
}

/// A copy of a list of images.
pub fn copy_images(images: &Vec<LoadedImage>) -> (r: Vec<LoadedImage>)
    ensures
        r@ == images@,
{
    let mut out: Vec<LoadedImage> = Vec::new();
    let mut i: usize = 0;
    while i < images.len()
        invariant
            i <= images@.len(),
            out@ == images@.take(i as int),
        decreases images@.len() - i,
    {
        let image = LoadedImage { load_address: images[i].load_address, path: images[i].path.clone() };
        out.push(image);
        i = i + 1;
        assert(out@ =~= images@.take(i as int));
    }
    assert(images@.take(i as int) =~= images@);
    out
}

} // verus!

verus! {

/// Whether a frame pointer can be followed: non-null and 8-byte aligned.
pub fn frame_pointer_usable(fp: u64) -> (r: bool)
    ensures
        r == (fp != 0 && fp % 8 == 0),
{
    assert((fp & 7) == fp % 8) by (bit_vector);
    fp != 0 && (fp & 7) == 0
}

/// One step of a frame-pointer walk from the frame at `fp`, which holds the
/// caller's frame pointer and the return address: the address to record (none
/// when the return address is zero, which ends the walk) and the frame pointer
/// to follow next (none when the walk ends; the stack must grow toward higher
/// frame pointers, which guards against cycles).
pub fn frame_walk_step(fp: u64, previous_fp: u64, return_address: u64) -> (r: (Option<u64>, Option<u64>))
    ensures
        r.0 == (if return_address == 0 {
            None
        } else {
            Some(return_address)
        }),
        r.1 == (if return_address == 0 || previous_fp <= fp {
            None::<u64>
        } else {
            Some(previous_fp)
        }),
{
    if return_address == 0 {
        return (None, None);
    }
    if previous_fp <= fp {
        (Some(return_address), None)
    } else {
        (Some(return_address), Some(previous_fp))
    }
}

/// The most frames a frame-pointer walk reads.
pub const MAX_WALK_DEPTH: usize = 256;

/// A frame-pointer walk in progress, as a mathematical value.
pub struct FrameWalkModel {
    /// The frame pointer to follow next; none once the walk has ended.
    pub next_fp: Option<u64>,
    /// How many frames have been read.
    pub depth: nat,
}

/// A frame-pointer walk over another thread's stack. Reading each frame is
/// the caller's work: `frame_to_read` says which frame to read next (none once
/// the walk is over), and `advance` takes what that frame held and says which
/// return address, if any, to record.
pub struct FrameWalk {
    next_fp: Option<u64>,
    depth: usize,
}

/// The frame a walk in state `w` reads next: its frame pointer, while it is
/// usable and fewer than `MAX_WALK_DEPTH` frames have been read.
pub open spec fn frame_to_read_of(w: FrameWalkModel) -> Option<u64> {
    match w.next_fp {
        Some(fp) => if w.depth < MAX_WALK_DEPTH && fp != 0 && fp % 8 == 0 {
            Some(fp)
        } else {
            None
        },
        None => None,
    }
}

impl FrameWalk {
    pub closed spec fn view(&self) -> FrameWalkModel {
        FrameWalkModel { next_fp: self.next_fp, depth: self.depth as nat }
    }

    /// At most `MAX_WALK_DEPTH` frames have been read.
    pub closed spec fn wf(&self) -> bool {
        self.depth <= MAX_WALK_DEPTH
    }

    /// A walk that starts at the frame `start_fp` points to.
    pub fn new(start_fp: u64) -> (r: FrameWalk)
        ensures
            r.wf(),
            r@ == (FrameWalkModel { next_fp: Some(start_fp), depth: 0 }),
    {
        FrameWalk { next_fp: Some(start_fp), depth: 0 }
    }

    /// The frame pointer of the frame to read next (see `frame_to_read_of`).
    pub fn frame_to_read(&self) -> (r: Option<u64>)
        ensures
            r == frame_to_read_of(self@),
    {
        match self.next_fp {
            Some(fp) => if self.depth < MAX_WALK_DEPTH && frame_pointer_usable(fp) {
                Some(fp)
            } else {
                None
            },
            None => None,
        }
    }

    /// Takes what the frame `frame_to_read` named held (the caller's frame
    /// pointer and the return address; `None` when it could not be read) and
    /// returns the return address to record, if any (see `frame_walk_step`).
    /// Each call reads one more frame, so a walk records at most
    /// `MAX_WALK_DEPTH` addresses.
    pub fn advance(&mut self, frame: Option<(u64, u64)>) -> (r: Option<u64>)
        requires
            old(self).wf(),
            frame_to_read_of(old(self)@) is Some,
        ensures
            final(self).wf(),
            final(self)@.depth == old(self)@.depth + 1,
            final(self)@.depth <= MAX_WALK_DEPTH,
            match frame {
                None => r is None && final(self)@.next_fp is None,
                Some((previous_fp, return_address)) => {
                    let fp = frame_to_read_of(old(self)@)->0;
                    &&& r == (if return_address == 0 { None } else { Some(return_address) })
                    &&& final(self)@.next_fp == (if return_address == 0 || previous_fp <= fp {
                        None::<u64>
                    } else {
                        Some(previous_fp)
                    })
                },
            },
    {
        let fp = match self.next_fp {
            Some(fp) => fp,
            None => 0,
        };
        self.depth = self.depth + 1;
        match frame {
            None => {
                self.next_fp = None;
                None
            },
            Some((previous_fp, return_address)) => {
                let (pushed, next) = frame_walk_step(fp, previous_fp, return_address);
                self.next_fp = next;
                pushed
            },
        }
    }
}

} // verus!
