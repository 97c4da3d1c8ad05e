//! Decisions and parsers of the Linux sampler: thread selection, the
//! `perf_event_open` sample records, and `/proc/<pid>/maps`.

use vstd::prelude::*;
use vstd::relations::sorted_by;

use crate::processes::{find_first, first_index_of_char};
use crate::symbolicate::{image_view, image_views};
use crate::sampler::{
    chars_of, contains_seq, deadline_passed, sampling_loop_step, str_contains, LoadedImage, LoopStep, SamplingClock,
    ThreadFilter, ThreadSample, IMAGE_REFRESH_INTERVAL_NANOS,
};
use crate::text::{chars_lt, collect_chars, ends_with, has_suffix, parse_unsigned, parse_unsigned_of, split_words, words};
use vstd::utf8::encode_utf8;
use crate::sorting::{sort_by_rank, total_preorder};

verus! {

/// A Linux sampler's target and configuration.
pub struct LinuxSampler {
    pub pid: u32,
    pub freq_hz: u32,
    /// Sampling the calling process (perf events) rather than another one (`ptrace`).
    pub is_self: bool,
    pub thread_filter: ThreadFilter,
}

/// Whether a thread passes `filter`, given its id, its name and the number of
/// threads selected before it.
pub open spec fn thread_passes(filter: ThreadFilter, tid: u32, name: Seq<char>, index: nat) -> bool {
    match filter {
        ThreadFilter::All => true,
        ThreadFilter::MainThread => index == 0,
        ThreadFilter::ByName(expected) => contains_seq(name, expected@),
        ThreadFilter::ById(expected) => tid as u64 == expected,
        ThreadFilter::ByMachThread(_) => false,
    }
}

/// The threads chosen from `threads` (taken in order): `skip` is left out,
/// and each other thread is kept when it passes the filter given how many
/// were kept before it.
pub open spec fn chosen_threads(
    filter: ThreadFilter,
    threads: Seq<(u32, String)>,
    skip: Option<u32>,
) -> Seq<(u32, String)>
    decreases threads.len(),
{
    if threads.len() == 0 {
        Seq::empty()
    } else {
        let before = chosen_threads(filter, threads.drop_last(), skip);
        let t = threads.last();
        if skip == Some(t.0) {
            before
        } else if thread_passes(filter, t.0, t.1@, before.len()) {
            before.push(t)
        } else {
            before
        }
    }
}

/// Ranks threads by id.
pub open spec fn tid_le() -> spec_fn((u32, String), (u32, String)) -> bool {
    |a: (u32, String), b: (u32, String)| a.0 <= b.0
}

impl LinuxSampler {
    /// A sampler for another process, sampled through `ptrace`.
    pub fn for_process(pid: u32, freq_hz: u32) -> (r: Self)
        ensures
            r.pid == pid,
            r.freq_hz == freq_hz,
            !r.is_self,
            r.thread_filter == ThreadFilter::All,
    {
        LinuxSampler { pid, freq_hz, is_self: false, thread_filter: ThreadFilter::All }
    }

    /// A sampler for the calling process (`pid`), sampled through perf events.
    pub fn for_current_process(pid: u32, freq_hz: u32) -> (r: Self)
        ensures
            r.pid == pid,
            r.freq_hz == freq_hz,
            r.is_self,
            r.thread_filter == ThreadFilter::All,
    {
        LinuxSampler { pid, freq_hz, is_self: true, thread_filter: ThreadFilter::All }
    }

    /// Microseconds between two `ptrace` sampling passes.
    pub fn sampling_interval_micros(&self) -> (r: u64)
        requires
            self.freq_hz > 0,
        ensures
            r == 1_000_000u64 / (self.freq_hz as u64),
    {
        1_000_000 / (self.freq_hz as u64)
    }

    /// Microseconds between two drains of the perf-event rings: the sampling
    /// period, kept between 500 µs and 5 ms.
    pub fn perf_poll_interval_micros(&self) -> (r: u64)
        requires
            self.freq_hz > 0,
        ensures
            r == (if 1_000_000u64 / (self.freq_hz as u64) < 500 {
                500
            } else if 1_000_000u64 / (self.freq_hz as u64) > 5_000 {
                5_000
            } else {
                1_000_000u64 / (self.freq_hz as u64)
            }),
    {
        let period = 1_000_000 / (self.freq_hz as u64);
        if period < 500 {
            500
        } else if period > 5_000 {
            5_000
        } else {
            period
        }
    }

    /// Whether the thread `tid` named `name`, which would be the `index`-th
    /// selected thread, passes the configured filter.
    pub fn thread_matches_filter(&self, tid: u32, name: &str, index: usize) -> (r: bool)
        ensures
            r == thread_passes(self.thread_filter, tid, name@, index as nat),
    {
        match &self.thread_filter {
            ThreadFilter::All => true,
            ThreadFilter::MainThread => index == 0,
            ThreadFilter::ByName(expected) => str_contains(name, expected.as_str()),
            ThreadFilter::ById(expected) => tid as u64 == *expected,
            ThreadFilter::ByMachThread(_) => false,
        }
    }

    /// The threads to sample among `threads` (id and name of each thread of
    /// the target): ordered by id, without `skip_tid`, filtered.
    pub fn selected_threads(&self, threads: Vec<(u32, String)>, skip_tid: Option<u32>) -> (r: Vec<
        (u32, String),
    >)
        ensures
            exists|sorted: Seq<(u32, String)>|
                {
                    &&& sorted_by(sorted, tid_le())
                    &&& sorted.to_multiset() == threads@.to_multiset()
                    &&& r@ == chosen_threads(self.thread_filter, sorted, skip_tid)
                },
    {
        let by_tid = |a: &(u32, String), b: &(u32, String)| -> (r: bool)
            ensures
                r == (a.0 <= b.0),
            { a.0 <= b.0 };
        let sorted = sort_by_rank(threads, by_tid, Ghost(tid_le()));
        let ghost sorted_view = sorted@;
        let mut selected: Vec<(u32, String)> = Vec::new();
        let mut rest = sorted;
        let ghost mut k: int = 0;
        while rest.len() > 0
            invariant
                0 <= k <= sorted_view.len(),
                rest@ == sorted_view.skip(k),
                selected@ == chosen_threads(self.thread_filter, sorted_view.take(k), skip_tid),
            decreases rest@.len(),
        {
            let entry = rest.remove(0);
            proof {
                assert(sorted_view.skip(k + 1) =~= sorted_view.skip(k).drop_first());
                assert(sorted_view.take(k + 1).drop_last() =~= sorted_view.take(k));
                assert(sorted_view.take(k + 1).last() == entry);
            }
            let skip = match skip_tid {
                Some(s) => s == entry.0,
                None => false,
            };
            if !skip {
                let index = selected.len();
                if self.thread_matches_filter(entry.0, entry.1.as_str(), index) {
                    selected.push(entry);
                }
            }
            proof {
                k = k + 1;
            }
        }
        proof {
            assert(sorted_view.take(k) =~= sorted_view);
        }
        selected
    }
}

impl LinuxSampler {
    /// One turn of the sampling loop, given whether a stop was requested,
    /// whether the sampled child has exited and the time. The loop over
    /// another process (`ptrace`) finishes on a stop, the child's exit or
    /// the deadline, and re-reads the images when their refresh is due
    /// (then the next one is due 500 ms later); the loop over the calling
    /// process (perf events) finishes on a stop or the deadline and never
    /// re-reads the images while it runs.
    pub fn run_sampling_loop(
        &self,
        clock: &mut SamplingClock,
        stop_requested: bool,
        child_exited: bool,
        now_nanos: u64,
    ) -> (r: LoopStep)
        ensures
            final(clock).deadline_nanos == old(clock).deadline_nanos,
            self.is_self ==> *final(clock) == *old(clock) && r == (if stop_requested || deadline_passed(
                old(clock).deadline_nanos,
                now_nanos,
            ) {
                LoopStep::Finish
            } else {
                LoopStep::Sample { refresh_images: false }
            }),
            !self.is_self && (stop_requested || child_exited || deadline_passed(old(clock).deadline_nanos, now_nanos))
                ==> r == LoopStep::Finish && *final(clock) == *old(clock),
            !self.is_self && !(stop_requested || child_exited || deadline_passed(old(clock).deadline_nanos, now_nanos))
                ==> if now_nanos >= old(clock).next_image_refresh_nanos {
                r == (LoopStep::Sample { refresh_images: true }) && final(clock).next_image_refresh_nanos == (
                if now_nanos + IMAGE_REFRESH_INTERVAL_NANOS > u64::MAX {
                    u64::MAX
                } else {
                    (now_nanos + IMAGE_REFRESH_INTERVAL_NANOS) as u64
                })
            } else {
                r == (LoopStep::Sample { refresh_images: false }) && *final(clock) == *old(clock)
            },
    {
        if self.is_self {
            let deadline_reached = match clock.deadline_nanos {
                Some(d) => now_nanos >= d,
                None => false,
            };
            if stop_requested || deadline_reached {
                return LoopStep::Finish;
            }
            return LoopStep::Sample { refresh_images: false };
        }
        sampling_loop_step(clock, stop_requested, child_exited, now_nanos)
    }
}

/// A sample drained from the perf ring of thread `configured_tid`, named
/// `name`, as a thread sample at `timestamp_nanos`: a record that names no
/// thread (id 0) is the configured thread's.
pub fn perf_thread_sample(configured_tid: u32, name: &String, sample: PerfSample, timestamp_nanos: u64) -> (r: ThreadSample)
    ensures
        r.thread_id == (if sample.thread_id == 0 {
            configured_tid
        } else {
            sample.thread_id
        }) as u64,
        r.thread_name@ == name@,
        r.stack@ == sample.stack@,
        r.timestamp_nanos == timestamp_nanos,
{
    let tid = if sample.thread_id == 0 {
        configured_tid
    } else {
        sample.thread_id
    };
    ThreadSample { thread_id: tid as u64, thread_name: name.clone(), stack: sample.stack, timestamp_nanos }
}

/// `perf_event_attr.type` for software events.
pub const PERF_TYPE_SOFTWARE: u32 = 1;
/// The software CPU clock event.
pub const PERF_COUNT_SW_CPU_CLOCK: u64 = 0;
/// Record the instruction pointer.
pub const PERF_SAMPLE_IP: u64 = 1;
/// Record the process and thread ids.
pub const PERF_SAMPLE_TID: u64 = 2;
/// Record the call chain.
pub const PERF_SAMPLE_CALLCHAIN: u64 = 32;
/// Record type of a sample in the perf ring.
pub const PERF_RECORD_SAMPLE: u32 = 9;
/// Call-chain entries at or above this value are context markers, not addresses.
pub const PERF_CONTEXT_MARKER_MIN: u64 = 0xffff_ffff_ffff_f000;
/// Size of `perf_event_attr` in its version-zero layout.
pub const PERF_ATTR_SIZE_VER0: u32 = 64;
/// Call chains longer than this are rejected as corrupt.
pub const PERF_MAX_FRAMES: u64 = 4096;

/// The leading fields of `perf_event_attr` (ABI version zero).
#[derive(Debug, Clone, Copy, PartialEq, Eq)]
pub struct PerfEventAttr {
    pub type_: u32,
    pub size: u32,
    pub config: u64,
    pub sample_freq: u64,
    pub sample_type: u64,
    pub read_format: u64,
    pub flags: u64,
    pub wakeup_events: u32,
    pub bp_type: u32,
    pub config1: u64,
}

impl PerfEventAttr {
    /// A disabled, user-space-only software CPU-clock event sampling at
    /// `freq_hz`, recording instruction pointer, thread id and call chain.
    pub fn software_cpu_clock(freq_hz: u32) -> (r: Self)
        ensures
            r.type_ == PERF_TYPE_SOFTWARE,
            r.size == PERF_ATTR_SIZE_VER0,
            r.config == PERF_COUNT_SW_CPU_CLOCK,
            r.sample_freq == freq_hz as u64,
            r.sample_type == PERF_SAMPLE_IP + PERF_SAMPLE_TID + PERF_SAMPLE_CALLCHAIN,
            r.read_format == 0,
            // disabled (bit 0), exclude_kernel (bit 5), exclude_hv (bit 6), freq (bit 10)
            r.flags == 1 + 32 + 64 + 1024,
            r.wakeup_events == 1,
            r.bp_type == 0,
            r.config1 == 0,
    {
        PerfEventAttr {
            type_: PERF_TYPE_SOFTWARE,
            size: PERF_ATTR_SIZE_VER0,
            config: PERF_COUNT_SW_CPU_CLOCK,
            sample_freq: freq_hz as u64,
            sample_type: PERF_SAMPLE_IP + PERF_SAMPLE_TID + PERF_SAMPLE_CALLCHAIN,
            read_format: 0,
            flags: 1 + 32 + 64 + 1024,
            wakeup_events: 1,
            bp_type: 0,
            config1: 0,
        }
    }
}

/// The byte order of the host that wrote a perf record.
#[derive(Debug, Clone, Copy, PartialEq, Eq)]
pub enum ByteOrder {
    Little,
    Big,
}

/// The unsigned value of `b` (least significant byte first).
pub open spec fn le_value(b: Seq<u8>) -> nat
    decreases b.len(),
{
    if b.len() == 0 {
        0
    } else {
        b[0] as nat + 256 * le_value(b.drop_first())
    }
}

/// The unsigned value of `b` read in `order`.
pub open spec fn ordered_value(b: Seq<u8>, order: ByteOrder) -> nat {
    match order {
        ByteOrder::Little => le_value(b),
        ByteOrder::Big => le_value(b.reverse()),
    }
}

/// `256` to the power `k`.
pub open spec fn pow256(k: nat) -> nat
    decreases k,
{
    if k == 0 {
        1
    } else {
        256 * pow256((k - 1) as nat)
    }
}

proof fn lemma_pow256_facts()
    ensures
        pow256(4) == 0x1_0000_0000,
        pow256(8) == 0x1_0000_0000_0000_0000,
{
    reveal_with_fuel(pow256, 9);
}

proof fn lemma_pow256_monotone(a: nat, b: nat)
    requires
        a <= b,
    ensures
        pow256(a) <= pow256(b),
    decreases b,
{
    if a < b {
        lemma_pow256_monotone(a, (b - 1) as nat);
    }
}

proof fn lemma_le_value_bound(b: Seq<u8>)
    ensures
        le_value(b) < pow256(b.len()),
    decreases b.len(),
{
    if b.len() > 0 {
        lemma_le_value_bound(b.drop_first());
    }
}

/// Reads `width` bytes of `bytes` at `start` in `order`.
fn read_word(bytes: &[u8], start: usize, width: usize, order: ByteOrder) -> (r: u64)
    requires
        width <= 8,
        start + width <= bytes@.len(),
    ensures
        r == ordered_value(bytes@.subrange(start as int, start + width), order),
{
    let ghost w = bytes@.subrange(start as int, start + width);
    let mut value: u64 = 0;
    let mut k: usize = 0;
    assert(bytes@.len() == bytes.len());
    proof {
        lemma_pow256_facts();
    }
    while k < width
        invariant
            width <= 8,
            start + width <= bytes@.len(),
            bytes@.len() <= usize::MAX,
            w == bytes@.subrange(start as int, start + width),
            k <= width,
            order == ByteOrder::Little ==> value == le_value(w.subrange(width - k, width as int)),
            order == ByteOrder::Big ==> value == le_value(w.reverse().subrange(width - k, width as int)),
            value < pow256(k as nat),
        decreases width - k,
    {
        let index = match order {
            ByteOrder::Little => start + width - 1 - k,
            ByteOrder::Big => start + k,
        };
        let byte = bytes[index];
        proof {
            let j = width - 1 - k;
            let sub = match order {
                ByteOrder::Little => w,
                ByteOrder::Big => w.reverse(),
            };
            assert(sub[j] == byte);
            assert(sub.subrange(j, width as int).drop_first() =~= sub.subrange(width - k, width as int));
            assert(sub.subrange(j, width as int)[0] == byte);
            assert(pow256((k + 1) as nat) == 256 * pow256(k as nat));
            lemma_pow256_facts();
            lemma_pow256_monotone((k + 1) as nat, 8);
            assert(256 * value + byte < pow256((k + 1) as nat)) by (nonlinear_arith)
                requires
                    value < pow256(k as nat),
                    byte < 256,
                    pow256((k + 1) as nat) == 256 * pow256(k as nat),
            ;
        }
        value = value * 256 + byte as u64;
        k = k + 1;
    }
    proof {
        assert(w.subrange(0, width as int) =~= w);
        assert(w.reverse().subrange(0, width as int) =~= w.reverse());
    }
    value
}

/// A sample record from a perf ring: the sampled thread and its stack, leaf first.
#[derive(Debug, Clone, PartialEq, Eq)]
pub struct PerfSample {
    pub thread_id: u32,
    pub stack: Vec<u64>,
}

/// Reads a `u64` at `*offset` and advances past it, or `None` (offset
/// unchanged) when fewer than eight bytes remain.
pub fn take_u64(bytes: &[u8], offset: &mut usize, order: ByteOrder) -> (r: Option<u64>)
    requires
        *old(offset) <= usize::MAX - 8,
    ensures
        *old(offset) + 8 <= bytes@.len() ==> r == Some(
            ordered_value(bytes@.subrange(*old(offset) as int, *old(offset) + 8), order) as u64,
        ) && *final(offset) == *old(offset) + 8,
        *old(offset) + 8 > bytes@.len() ==> r is None && *final(offset) == *old(offset),
{
    if *offset + 8 > bytes.len() {
        return None;
    }
    let value = read_word(bytes, *offset, 8, order);
    *offset = *offset + 8;
    Some(value)
}

/// Reads a `u32` at `*offset` and advances past it, or `None` (offset
/// unchanged) when fewer than four bytes remain.
pub fn take_u32(bytes: &[u8], offset: &mut usize, order: ByteOrder) -> (r: Option<u32>)
    requires
        *old(offset) <= usize::MAX - 4,
    ensures
        *old(offset) + 4 <= bytes@.len() ==> r == Some(
            ordered_value(bytes@.subrange(*old(offset) as int, *old(offset) + 4), order) as u32,
        ) && *final(offset) == *old(offset) + 4,
        *old(offset) + 4 > bytes@.len() ==> r is None && *final(offset) == *old(offset),
{
    if *offset + 4 > bytes.len() {
        return None;
    }
    let value = read_word(bytes, *offset, 4, order);
    proof {
        lemma_le_value_bound(bytes@.subrange(*offset as int, *offset + 4));
        lemma_le_value_bound(bytes@.subrange(*offset as int, *offset + 4).reverse());
        lemma_pow256_facts();
    }
    *offset = *offset + 4;
    Some(value as u32)
}

/// The 64-bit word at byte `at` of `record`.
pub open spec fn word_at(record: Seq<u8>, at: int, order: ByteOrder) -> u64 {
    ordered_value(record.subrange(at, at + 8), order) as u64
}

/// A call-chain entry that is a real return address.
pub open spec fn is_frame_address(a: u64) -> bool {
    a != 0 && a < PERF_CONTEXT_MARKER_MIN
}

/// The addresses among the first `n` call-chain entries, which start at byte 32.
pub open spec fn chain_addresses(record: Seq<u8>, order: ByteOrder, n: nat) -> Seq<u64>
    decreases n,
{
    if n == 0 {
        Seq::empty()
    } else {
        let before = chain_addresses(record, order, (n - 1) as nat);
        let a = word_at(record, 32 + 8 * (n - 1), order);
        if is_frame_address(a) {
            before.push(a)
        } else {
            before
        }
    }
}

/// What a perf sample record holds: `None` when it is too short for its
/// header or for the call chain it announces, or announces more than
/// `PERF_MAX_FRAMES` entries; else the thread id and the stack (the call-chain
/// addresses, with the sampled instruction pointer in front unless it is zero
/// or already the first address).
pub open spec fn perf_sample_of(record: Seq<u8>, order: ByteOrder) -> Option<(u32, Seq<u64>)> {
    if record.len() < 32 {
        None
    } else {
        let ip = word_at(record, 8, order);
        let tid = ordered_value(record.subrange(20, 24), order) as u32;
        let n = word_at(record, 24, order);
        if n > PERF_MAX_FRAMES || record.len() < 32 + 8 * n {
            None
        } else {
            let chain = chain_addresses(record, order, n as nat);
            let stack = if ip != 0 && (chain.len() == 0 || chain[0] != ip) {
                seq![ip] + chain
            } else {
                chain
            };
            Some((tid, stack))
        }
    }
}

/// The first `n` raw call-chain entries of a sample record, markers included.
pub open spec fn chain_words(record: Seq<u8>, order: ByteOrder, n: nat) -> Seq<u64> {
    Seq::new(n, |j: int| word_at(record, 32 + 8 * j, order))
}

/// A return address as opposed to a context marker (`u64::MAX - 4095` and
/// above) or a zero entry.
pub open spec fn below_context_markers(a: u64) -> bool {
    0 < a && a < u64::MAX - 4095
}

proof fn lemma_chain_addresses_filter(record: Seq<u8>, order: ByteOrder, n: nat)
    ensures
        chain_addresses(record, order, n) == chain_words(record, order, n).filter(
            |a: u64| below_context_markers(a),
        ),
    decreases n,
{
    let words = chain_words(record, order, n);
    reveal(Seq::filter);
    if n > 0 {
        lemma_chain_addresses_filter(record, order, (n - 1) as nat);
        assert(words.drop_last() =~= chain_words(record, order, (n - 1) as nat));
        let a = words.last();
        assert(a == word_at(record, 32 + 8 * (n - 1), order));
        assert(is_frame_address(a) == below_context_markers(a));
    } else {
        assert(words =~= Seq::<u64>::empty());
    }
}

/// The stack of a parsed sample is the call chain with every zero entry and
/// every context marker (`u64::MAX - 4095` and above) left out, in chain
/// order, preceded at most by the instruction pointer: past its first entry
/// no address in it is a marker, and its first entry is the instruction
/// pointer or no marker either.
pub proof fn lemma_perf_stack_drops_context_markers(record: Seq<u8>, order: ByteOrder)
    ensures
        perf_sample_of(record, order) matches Some((_tid, stack)) ==> {
            let ip = word_at(record, 8, order);
            let n = word_at(record, 24, order) as nat;
            let frames = chain_words(record, order, n).filter(|a: u64| below_context_markers(a));
            &&& (stack == frames || stack == seq![ip] + frames)
            &&& forall|k: int| 1 <= k < stack.len() ==> below_context_markers(#[trigger] stack[k])
            &&& stack.len() > 0 ==> (stack[0] == ip || below_context_markers(stack[0]))
        },
{
    if let Some((_tid, stack)) = perf_sample_of(record, order) {
        let ip = word_at(record, 8, order);
        let n = word_at(record, 24, order) as nat;
        let pred = |a: u64| below_context_markers(a);
        let frames = chain_words(record, order, n).filter(pred);
        lemma_chain_addresses_filter(record, order, n);
        chain_words(record, order, n).filter_lemma(pred);
        assert forall|k: int| 1 <= k < stack.len() implies below_context_markers(
            #[trigger] stack[k],
        ) by {
            if stack == frames {
                assert(pred(frames[k]));
            } else {
                assert(stack[k] == frames[k - 1]);
                assert(pred(frames[k - 1]));
            }
        }
        if stack.len() > 0 && stack != seq![ip] + frames {
            assert(pred(frames[0]));
        }
    }
}

/// Parses a `PERF_RECORD_SAMPLE` record laid out as header, instruction
/// pointer, process id, thread id, call-chain length and call chain.
pub fn parse_perf_sample(record: &[u8], order: ByteOrder) -> (r: Option<PerfSample>)
    ensures
        match perf_sample_of(record@, order) {
            Some((tid, stack)) => r matches Some(s) && s.thread_id == tid && s.stack@ == stack,
            None => r is None,
        },
{
    let mut offset: usize = 8;
    let instruction_pointer = match take_u64(record, &mut offset, order) {
        Some(v) => v,
        None => {
            assert(perf_sample_of(record@, order) is None);
            return None;
        },
    };
    let _process_id = match take_u32(record, &mut offset, order) {
        Some(v) => v,
        None => {
            assert(perf_sample_of(record@, order) is None);
            return None;
        },
    };
    let thread_id = match take_u32(record, &mut offset, order) {
        Some(v) => v,
        None => {
            assert(perf_sample_of(record@, order) is None);
            return None;
        },
    };
    let frame_count = match take_u64(record, &mut offset, order) {
        Some(v) => v,
        None => {
            assert(perf_sample_of(record@, order) is None);
            return None;
        },
    };
    if frame_count > PERF_MAX_FRAMES {
        assert(perf_sample_of(record@, order) is None);
        return None;
    }
    let mut stack: Vec<u64> = Vec::new();
    let mut i: u64 = 0;
    while i < frame_count
        invariant
            frame_count <= PERF_MAX_FRAMES,
            frame_count == word_at(record@, 24, order),
            i <= frame_count,
            offset == 32 + 8 * i,
            32 + 8 * i <= record@.len(),
            stack@ == chain_addresses(record@, order, i as nat),
        decreases frame_count - i,
    {
        let address = match take_u64(record, &mut offset, order) {
            Some(v) => v,
            None => {
                proof {
                    assert(record@.len() < 32 + 8 * frame_count);
                    assert(perf_sample_of(record@, order) is None);
                }
                return None;
            },
        };
        if address != 0 && address < PERF_CONTEXT_MARKER_MIN {
            stack.push(address);
        }
        i = i + 1;
    }
    let ghost chain = stack@;
    assert(instruction_pointer == word_at(record@, 8, order));
    assert(thread_id == ordered_value(record@.subrange(20, 24), order) as u32);
    assert(frame_count == word_at(record@, 24, order));
    assert(record@.len() >= 32 + 8 * frame_count);
    assert(chain == chain_addresses(record@, order, frame_count as nat));
    if instruction_pointer != 0 && (stack.len() == 0 || stack[0] != instruction_pointer) {
        stack.insert(0, instruction_pointer);
        proof {
            assert(stack@ =~= seq![instruction_pointer] + chain);
        }
    }
    Some(PerfSample { thread_id, stack })
}

} // verus!

verus! {

// ---------------------------------------------------------------------------
// /proc/<pid>/maps
// ---------------------------------------------------------------------------

// ---------------------------------------------------------------------------
// The perf ring
// ---------------------------------------------------------------------------

/// Pages of sample data in a perf ring (after its header page).
pub const PERF_DATA_PAGES: usize = 8;

/// Where the data area of a perf ring lies, given the page size and what
/// the kernel wrote in the header page (data offset and size, 0 when it
/// wrote nothing): the length of the whole mapping, and the offset and size
/// of the data area, which default to the pages after the header. `None`
/// when the data area does not fit in the mapping.
pub fn ring_layout(page_size: usize, kernel_data_offset: u64, kernel_data_size: u64) -> (r: Option<(usize, usize, usize)>)
    requires
        page_size * (1 + PERF_DATA_PAGES) <= usize::MAX,
    ensures
        ({
            let mapping_len = page_size * (1 + PERF_DATA_PAGES);
            let offset: int = if kernel_data_offset == 0 {
                page_size as int
            } else {
                (kernel_data_offset as usize) as int
            };
            let size: int = if kernel_data_size == 0 {
                mapping_len - page_size
            } else {
                (kernel_data_size as usize) as int
            };
            if offset + size > mapping_len {
                r is None
            } else {
                r == Some((mapping_len as usize, offset as usize, size as usize))
            }
        }),
{
    let mapping_len = page_size * (1 + PERF_DATA_PAGES);
    assert(mapping_len >= page_size) by (nonlinear_arith)
        requires
            mapping_len == page_size * 9,
    ;
    let data_offset: usize = if kernel_data_offset == 0 {
        page_size
    } else {
        #[verifier::truncate] (kernel_data_offset as usize)
    };
    let data_size: usize = if kernel_data_size == 0 {
        mapping_len - page_size
    } else {
        #[verifier::truncate] (kernel_data_size as usize)
    };
    if data_offset > mapping_len || data_size > mapping_len - data_offset {
        None
    } else {
        Some((mapping_len, data_offset, data_size))
    }
}

/// `length` bytes of a ring whose data area is `data`, from `position`
/// on, wrapping around at the end of the area.
pub open spec fn ring_bytes(data: Seq<u8>, position: u64, length: nat) -> Seq<u8> {
    let start = position as int % data.len() as int;
    Seq::new(
        length,
        |i: int|
            if start + i < data.len() {
                data[start + i]
            } else {
                data[start + i - data.len()]
            },
    )
}

/// The samples of the records between `tail` and `head` of a ring whose data
/// area is `data`, and where reading stopped: records are taken while a
/// whole 8-byte header is available and its size is at least 8 and within
/// what is available; sample records that parse become samples, other
/// records are skipped.
pub open spec fn ring_records(data: Seq<u8>, head: u64, tail: u64, order: ByteOrder) -> (Seq<(u32, Seq<u64>)>, u64)
    decreases (if head > tail {
        head - tail
    } else {
        0
    }),
{
    if head <= tail || head - tail < 8 {
        (Seq::empty(), tail)
    } else {
        let header = ring_bytes(data, tail, 8);
        let kind = ordered_value(header.subrange(0, 4), order);
        let size = ordered_value(header.subrange(6, 8), order);
        if size < 8 || size > head - tail {
            (Seq::empty(), tail)
        } else {
            let (rest, end) = ring_records(data, head, (tail + size) as u64, order);
            let found = if kind == PERF_RECORD_SAMPLE as nat {
                perf_sample_of(ring_bytes(data, tail, size), order)
            } else {
                None
            };
            (
                match found {
                    Some(sample) => seq![sample] + rest,
                    None => rest,
                },
                end,
            )
        }
    }
}

/// Where draining starts: at most one data area behind `head` (older
/// records have been overwritten).
pub open spec fn drain_start(data_len: nat, head: u64, tail: u64) -> u64 {
    if head > tail && head - tail > data_len {
        (head - data_len) as u64
    } else {
        tail
    }
}

/// Perf samples as values.
pub open spec fn perf_sample_views(v: Seq<PerfSample>) -> Seq<(u32, Seq<u64>)> {
    v.map_values(|s: PerfSample| (s.thread_id, s.stack@))
}

fn copy_ring(data: &[u8], position: u64, length: usize) -> (r: Vec<u8>)
    requires
        0 < data@.len(),
        length <= data@.len(),
    ensures
        r@ == ring_bytes(data@, position, length as nat),
{
    let size = data.len();
    let start = (position % (size as u64)) as usize;
    let first = if length < size - start {
        length
    } else {
        size - start
    };
    let mut out: Vec<u8> = Vec::new();
    let mut i: usize = 0;
    while i < length
        invariant
            size == data@.len(),
            0 < size,
            length <= size,
            start == position as int % size as int,
            start < size,
            first <= length,
            first == (if length < size - start { length as int } else { size - start }),
            i <= length,
            out@ == ring_bytes(data@, position, length as nat).take(i as int),
        decreases length - i,
    {
        let byte = if i < first {
            data[start + i]
        } else {
            data[i - first]
        };
        proof {
            if i >= first {
                assert(first == size - start);
            }
        }
        out.push(byte);
        i = i + 1;
        assert(out@ =~= ring_bytes(data@, position, length as nat).take(i as int));
    }
    assert(ring_bytes(data@, position, length as nat).take(i as int) =~= ring_bytes(data@, position, length as nat));
    out
}

/// Reads the records between `tail` and `head` of a perf ring whose data
/// area is `data` (see `ring_records`, from `drain_start`): the samples
/// found, and the tail to write back.
pub fn drain_ring(data: &[u8], head: u64, tail: u64, order: ByteOrder) -> (r: (Vec<PerfSample>, u64))
    requires
        0 < data@.len(),
    ensures
        (perf_sample_views(r.0@), r.1) == ring_records(data@, head, drain_start(data@.len(), head, tail), order),
{
    let size = data.len() as u64;
    let mut tail = tail;
    if head > tail && head - tail > size {
        tail = head - size;
    }
    let ghost t0 = tail;
    let mut samples: Vec<PerfSample> = Vec::new();
    while head > tail && head - tail >= 8
        invariant_except_break
            size == data@.len(),
            0 < data@.len(),
            head >= tail ==> head - tail <= size,
            ring_records(data@, head, t0, order) == (
                perf_sample_views(samples@) + ring_records(data@, head, tail, order).0,
                ring_records(data@, head, tail, order).1,
            ),
        ensures
            ring_records(data@, head, t0, order) == (perf_sample_views(samples@), tail),
        decreases head - tail,
    {
        let ghost old_tail = tail;
        let ghost hb = ring_bytes(data@, old_tail, 8);
        let header = copy_ring(data, tail, 8);
        let kind = read_word(header.as_slice(), 0, 4, order);
        let record_size = read_word(header.as_slice(), 6, 2, order);
        proof {
            assert(kind == ordered_value(hb.subrange(0, 4), order));
            assert(record_size == ordered_value(hb.subrange(6, 8), order));
        }
        if record_size < 8 || record_size > head - tail {
            proof {
                assert(ring_records(data@, head, tail, order) == (Seq::<(u32, Seq<u64>)>::empty(), tail));
                assert(perf_sample_views(samples@) + Seq::<(u32, Seq<u64>)>::empty() =~= perf_sample_views(samples@));
            }
            break;
        }
        assert(data@.len() == data.len());
        assert(record_size <= size);
        assert((record_size as usize) as u64 == record_size);
        let record = copy_ring(data, tail, record_size as usize);
        let ghost before = perf_sample_views(samples@);
        tail = tail + record_size;
        let mut parsed: Option<PerfSample> = None;
        if kind == PERF_RECORD_SAMPLE as u64 {
            parsed = parse_perf_sample(record.as_slice(), order);
        }
        let ghost found = if kind == PERF_RECORD_SAMPLE as nat {
            perf_sample_of(ring_bytes(data@, old_tail, record_size as nat), order)
        } else {
            None
        };
        proof {
            assert(record@ == ring_bytes(data@, old_tail, record_size as nat));
            let (rest, end) = ring_records(data@, head, tail, order);
            assert(ring_records(data@, head, old_tail, order) == (
                match found {
                    Some(sample) => seq![sample] + rest,
                    None => rest,
                },
                end,
            ));
        }
        match parsed {
            Some(sample) => {
                samples.push(sample);
                proof {
                    let (rest, end) = ring_records(data@, head, tail, order);
                    assert(perf_sample_views(samples@) =~= before.push(found.unwrap()));
                    assert(perf_sample_views(samples@) + rest =~= before + (seq![found.unwrap()] + rest));
                }
            },
            None => {
                proof {
                    assert(perf_sample_views(samples@) =~= before);
                }
            },
        }
    }
    proof {
        if !(head > tail && head - tail >= 8) {
            assert(ring_records(data@, head, tail, order) == (Seq::<(u32, Seq<u64>)>::empty(), tail));
            assert(perf_sample_views(samples@) + Seq::<(u32, Seq<u64>)>::empty() =~= perf_sample_views(samples@));
        }
    }
    (samples, tail)
}

/// The text between line feeds (one more piece than there are line feeds).
pub open spec fn pieces(s: Seq<char>) -> Seq<Seq<char>>
    decreases s.len(),
{
    if s.len() == 0 {
        seq![Seq::empty()]
    } else {
        let p = pieces(s.drop_last());
        if s.last() == '\n' {
            p.push(Seq::empty())
        } else {
            p.update(p.len() - 1, p.last().push(s.last()))
        }
    }
}

/// A line without the carriage return of a `\r\n` ending.
pub open spec fn strip_cr(l: Seq<char>) -> Seq<char> {
    if l.len() > 0 && l.last() == '\r' {
        l.drop_last()
    } else {
        l
    }
}

/// The lines of `s` as `str::lines` gives them: split at line feeds, a
/// `\r\n` ending counting as one, the final line ending optional.
pub open spec fn text_lines(s: Seq<char>) -> Seq<Seq<char>> {
    let p = pieces(s);
    let body = Seq::new((p.len() - 1) as nat, |i: int| strip_cr(p[i]));
    if p.last().len() == 0 {
        body
    } else {
        body.push(p.last())
    }
}

proof fn lemma_pieces_len(s: Seq<char>)
    ensures
        pieces(s).len() >= 1,
    decreases s.len(),
{
    if s.len() > 0 {
        lemma_pieces_len(s.drop_last());
    }
}

fn strip_cr_exec(l: Vec<char>) -> (r: Vec<char>)
    ensures
        r@ == strip_cr(l@),
{
    let mut l = l;
    if l.len() > 0 && l[l.len() - 1] == '\r' {
        l.pop();
    }
    l
}

/// The lines of `chars` (see `text_lines`).
pub fn split_lines(chars: &Vec<char>) -> (r: Vec<Vec<char>>)
    ensures
        r@.map_values(|l: Vec<char>| l@) == text_lines(chars@),
{
    let mut done: Vec<Vec<char>> = Vec::new();
    let mut cur: Vec<char> = Vec::new();
    let mut i: usize = 0;
    while i < chars.len()
        invariant
            i <= chars@.len(),
            pieces(chars@.take(i as int)).len() == done@.len() + 1,
            forall|k: int| 0 <= k < done@.len() ==> #[trigger] done@[k]@ == strip_cr(pieces(chars@.take(i as int))[k]),
            cur@ == pieces(chars@.take(i as int)).last(),
        decreases chars@.len() - i,
    {
        let c = chars[i];
        proof {
            assert(chars@.take(i + 1).drop_last() =~= chars@.take(i as int));
            assert(chars@.take(i + 1).last() == c);
            lemma_pieces_len(chars@.take(i as int));
        }
        if c == '\n' {
            let line = strip_cr_exec(cur);
            done.push(line);
            cur = Vec::new();
        } else {
            cur.push(c);
        }
        i = i + 1;
    }
    proof {
        assert(chars@.take(i as int) =~= chars@);
        lemma_pieces_len(chars@);
    }
    let ghost body = done@.map_values(|l: Vec<char>| l@);
    proof {
        let p = pieces(chars@);
        assert(body =~= Seq::new((p.len() - 1) as nat, |k: int| strip_cr(p[k])));
    }
    if cur.len() > 0 {
        done.push(cur);
        proof {
            assert(done@.map_values(|l: Vec<char>| l@) =~= body.push(pieces(chars@).last()));
        }
    }
    done
}

/// `words` joined with single spaces.
pub open spec fn join_words(ws: Seq<Seq<char>>) -> Seq<char>
    decreases ws.len(),
{
    if ws.len() == 0 {
        Seq::empty()
    } else if ws.len() == 1 {
        ws[0]
    } else {
        join_words(ws.drop_last()) + seq![' '] + ws.last()
    }
}

/// A backslash followed by three octal digits at `i`.
pub open spec fn octal_escape_at(s: Seq<u8>, i: int) -> bool {
    &&& 0 <= i
    &&& i + 3 < s.len()
    &&& s[i] == 92
    &&& 48 <= s[i + 1] <= 55
    &&& 48 <= s[i + 2] <= 55
    &&& 48 <= s[i + 3] <= 55
}

/// Every octal escape of `s` denotes a byte (its first digit is at most 3),
/// as the kernel writes them.
pub open spec fn escapes_fit(s: Seq<u8>) -> bool {
    forall|i: int| #[trigger] octal_escape_at(s, i) ==> s[i + 1] <= 51
}

/// `s` with each octal escape `\ooo` replaced by the byte it denotes.
pub open spec fn unescaped(s: Seq<u8>) -> Seq<u8>
    decreases s.len(),
{
    if s.len() == 0 {
        Seq::empty()
    } else if octal_escape_at(s, 0) {
        seq![((s[1] - 48) * 64 + (s[2] - 48) * 8 + (s[3] - 48)) as u8] + unescaped(s.skip(4))
    } else {
        seq![s[0]] + unescaped(s.skip(1))
    }
}

/// What `String::from_utf8_lossy` makes of `bytes`.
pub uninterp spec fn utf8_lossy(bytes: Seq<u8>) -> Seq<char>;

/// `String::from_utf8_lossy`: invalid sequences become U+FFFD; valid UTF-8
/// is decoded as it is.  The result depends on the bytes alone and is named
/// `utf8_lossy`.
#[verifier::external_body]
pub(crate) fn lossy_string(bytes: &[u8]) -> (r: String)
    ensures
        r@ == utf8_lossy(bytes@),
        vstd::utf8::valid_utf8(bytes@) ==> r@ == vstd::utf8::decode_utf8(bytes@),
{
    String::from_utf8_lossy(bytes).into_owned()
}

/// A path from `/proc/<pid>/maps` with its `\ooo` escapes (such as `\040`
/// for a space) decoded.
pub fn unescape_proc_path(path: &str) -> (r: String)
    requires
        escapes_fit(encode_utf8(path@)),
    ensures
        r@ == utf8_lossy(unescaped(encode_utf8(path@))),
{
    let bytes = path.as_bytes();
    let ghost b = bytes@;
    let mut output: Vec<u8> = Vec::new();
    let mut index: usize = 0;
    assert(b.skip(0) =~= b);
    while index < bytes.len()
        invariant
            b == bytes@,
            b == encode_utf8(path@),
            escapes_fit(b),
            index <= b.len(),
            output@ + unescaped(b.skip(index as int)) == unescaped(b),
        decreases b.len() - index,
    {
        let ghost t = b.skip(index as int);
        if bytes[index] == 92 && bytes.len() >= 4 && index < bytes.len() - 3 && 48 <= bytes[index + 1] && bytes[index + 1] <= 55
            && 48 <= bytes[index + 2] && bytes[index + 2] <= 55 && 48 <= bytes[index + 3] && bytes[index + 3] <= 55 {
            proof {
                assert(octal_escape_at(b, index as int));
                assert(octal_escape_at(t, 0));
                assert(t.skip(4) =~= b.skip(index + 4));
            }
            let value = (bytes[index + 1] - 48) * 64 + (bytes[index + 2] - 48) * 8 + (bytes[index + 3] - 48);
            let ghost before = output@;
            output.push(value);
            proof {
                assert(output@ + unescaped(b.skip(index + 4)) =~= before + unescaped(t));
            }
            index = index + 4;
        } else {
            proof {
                assert(!octal_escape_at(t, 0));
                assert(t.skip(1) =~= b.skip(index + 1));
                assert(t[0] == b[index as int]);
            }
            let ghost before = output@;
            output.push(bytes[index]);
            proof {
                assert(output@ + unescaped(b.skip(index + 1)) =~= before + unescaped(t));
            }
            index = index + 1;
        }
    }
    proof {
        assert(b.skip(index as int) =~= Seq::<u8>::empty());
        assert(output@ =~= unescaped(b));
    }
    lossy_string(output.as_slice())
}

} // verus!

verus! {

/// What one line of `/proc/<pid>/maps` says of an image before its path is
/// unescaped: the load bias (start address minus file offset) and the path
/// (the fields after the fifth, joined by spaces).  Lines without a valid
/// range or offset, whose path is not absolute, or names a deleted file, say
/// nothing; neither does a mapping whose offset exceeds its start.
pub open spec fn raw_image_of(line: Seq<char>) -> Option<(u64, Seq<char>)> {
    let f = words(line);
    if f.len() < 3 {
        None
    } else {
        match parse_unsigned_of(f[2], 16, u64::MAX as nat) {
            None => None,
            Some(offset) => {
                let path = join_words(
                    if f.len() > 5 {
                        f.skip(5)
                    } else {
                        Seq::empty()
                    },
                );
                if !(path.len() > 0 && path[0] == '/') || has_suffix(path, " (deleted)"@) {
                    None
                } else {
                    match first_index_of_char(f[0], '-') {
                        None => None,
                        Some(d) => match parse_unsigned_of(f[0].take(d), 16, u64::MAX as nat) {
                            None => None,
                            Some(start) => if start < offset {
                                None
                            } else {
                                Some(((start - offset) as u64, path))
                            },
                        },
                    }
                }
            },
        }
    }
}

/// The image a line of `/proc/<pid>/maps` describes, with its path unescaped.
pub open spec fn image_of_line(line: Seq<char>) -> Option<(u64, Seq<char>)> {
    match raw_image_of(line) {
        Some((load, path)) => Some((load, utf8_lossy(unescaped(encode_utf8(path))))),
        None => None,
    }
}

/// A line of `/proc/<pid>/maps` describes an image only when its path field
/// (the fields after the fifth, joined by single spaces, as the kernel
/// writes it) is absolute and does not end in " (deleted)": the mapping of
/// a file that has been deleted since it was mapped names no image.
pub proof fn lemma_maps_line_needs_live_absolute_path(line: Seq<char>)
    ensures
        image_of_line(line) is Some ==> {
            let fields = words(line);
            let path = join_words(fields.skip(5));
            &&& fields.len() > 5
            &&& path.len() > 0
            &&& path[0] == '/'
            &&& !has_suffix(path, " (deleted)"@)
        },
        has_suffix(join_words(words(line).skip(5)), " (deleted)"@) ==> image_of_line(line) is None,
{
}

/// Every path the maps text names has escapes that denote bytes.
pub open spec fn maps_escapes_fit(maps: Seq<char>) -> bool {
    forall|i: int|
        0 <= i < text_lines(maps).len() ==> match #[trigger] raw_image_of(text_lines(maps)[i]) {
            Some((_, path)) => escapes_fit(encode_utf8(path)),
            None => true,
        }
}

/// Images ordered by load address, then by path.
pub open spec fn image_key_lt(a: (u64, Seq<char>), b: (u64, Seq<char>)) -> bool {
    a.0 < b.0 || (a.0 == b.0 && chars_lt(a.1, b.1))
}

fn join_exec(words: &Vec<Vec<char>>, from: usize) -> (r: Vec<char>)
    requires
        from <= words@.len(),
    ensures
        r@ == join_words(words@.map_values(|w: Vec<char>| w@).skip(from as int)),
{
    let ghost ws = words@.map_values(|w: Vec<char>| w@).skip(from as int);
    let mut out: Vec<char> = Vec::new();
    let mut k: usize = from;
    assert(ws.take(0) =~= Seq::<Seq<char>>::empty());
    while k < words.len()
        invariant
            from <= k <= words@.len(),
            ws == words@.map_values(|w: Vec<char>| w@).skip(from as int),
            out@ == join_words(ws.take(k - from)),
        decreases words@.len() - k,
    {
        proof {
            assert(ws.take(k - from + 1).drop_last() =~= ws.take(k - from));
            assert(ws.take(k - from + 1).last() == words@[k as int]@);
        }
        if k > from {
            out.push(' ');
        }
        let w = &words[k];
        let mut j: usize = 0;
        let ghost base = out@;
        while j < w.len()
            invariant
                j <= w@.len(),
                out@ == base + w@.take(j as int),
            decreases w@.len() - j,
        {
            out.push(w[j]);
            j = j + 1;
            assert(out@ =~= base + w@.take(j as int));
        }
        proof {
            assert(w@.take(j as int) =~= w@);
            if k == from {
                assert(out@ =~= join_words(ws.take(k - from + 1)));
            } else {
                assert(out@ =~= join_words(ws.take(k - from + 1)));
            }
        }
        k = k + 1;
    }
    assert(ws.take(k - from) =~= ws);
    out
}

fn raw_image_exec(line: &Vec<char>) -> (r: Option<(u64, Vec<char>)>)
    ensures
        match raw_image_of(line@) {
            Some((load, path)) => r matches Some(v) && v.0 == load && v.1@ == path,
            None => r is None,
        },
{
    let fields = split_words(line);
    let ghost f = words(line@);
    proof {
        assert(fields@.map_values(|w: Vec<char>| w@) == f);
    }
    if fields.len() < 3 {
        return None;
    }
    proof {
        assert(fields@[2]@ == f[2]);
        assert(fields@[0]@ == f[0]);
    }
    let offset_text = collect_chars(copy_vec(&fields[2]));
    let offset = match parse_unsigned(offset_text.as_str(), 16, u64::MAX) {
        Some(v) => v,
        None => return None,
    };
    let path = if fields.len() > 5 {
        join_exec(&fields, 5)
    } else {
        proof {
            assert(join_words(Seq::<Seq<char>>::empty()) == Seq::<char>::empty());
        }
        Vec::new()
    };
    let path_text = collect_chars(copy_vec(&path));
    let absolute = path.len() > 0 && path[0] == '/';
    let deleted = ends_with(path_text.as_str(), " (deleted)");
    if !absolute || deleted {
        return None;
    }
    let dash = match find_first(&fields[0], '-') {
        Some(d) => d,
        None => return None,
    };
    proof {
        crate::processes::lemma_index_bounds(f[0], '-');
    }
    let mut start_chars: Vec<char> = Vec::new();
    let mut k: usize = 0;
    while k < dash
        invariant
            fields@.len() >= 3,
            dash <= fields@[0]@.len(),
            k <= dash,
            start_chars@ == fields@[0]@.take(k as int),
        decreases dash - k,
    {
        start_chars.push(fields[0][k]);
        k = k + 1;
        assert(start_chars@ =~= fields@[0]@.take(k as int));
    }
    let start_text = collect_chars(start_chars);
    let start = match parse_unsigned(start_text.as_str(), 16, u64::MAX) {
        Some(v) => v,
        None => return None,
    };
    if start < offset {
        return None;
    }
    Some((start - offset, path))
}

fn copy_vec(v: &Vec<char>) -> (r: Vec<char>)
    ensures
        r@ == v@,
{
    let mut out: Vec<char> = Vec::new();
    let mut i: usize = 0;
    while i < v.len()
        invariant
            i <= v@.len(),
            out@ == v@.take(i as int),
        decreases v@.len() - i,
    {
        out.push(v[i]);
        i = i + 1;
        assert(out@ =~= v@.take(i as int));
    }
    assert(v@.take(i as int) =~= v@);
    out
}

} // verus!

verus! {

proof fn lemma_image_key_order()
    ensures
        forall|a: (u64, Seq<char>), b: (u64, Seq<char>), c: (u64, Seq<char>)|
            #[trigger] image_key_lt(a, b) && #[trigger] image_key_lt(b, c) ==> image_key_lt(a, c),
        forall|a: (u64, Seq<char>)| !#[trigger] image_key_lt(a, a),
        forall|a: (u64, Seq<char>), b: (u64, Seq<char>)| a != b ==> #[trigger] image_key_lt(a, b) || image_key_lt(b, a),
{
    crate::text::lemma_chars_order(Seq::empty(), Seq::empty());
    let lt = |x: Seq<char>, y: Seq<char>| chars_lt(x, y);
    assert forall|a: (u64, Seq<char>), b: (u64, Seq<char>), c: (u64, Seq<char>)|
        #[trigger] image_key_lt(a, b) && #[trigger] image_key_lt(b, c) implies image_key_lt(a, c) by {
        if a.0 == b.0 && b.0 == c.0 {
            assert(lt(a.1, b.1) && lt(b.1, c.1));
        }
    }
    assert forall|a: (u64, Seq<char>)| !#[trigger] image_key_lt(a, a) by {
        assert(!lt(a.1, a.1));
    }
    assert forall|a: (u64, Seq<char>), b: (u64, Seq<char>)| a != b implies #[trigger] image_key_lt(a, b) || image_key_lt(b, a) by {
        if a.0 == b.0 && a.1 != b.1 {
            assert(lt(a.1, b.1) || lt(b.1, a.1));
        }
    }
}

fn image_key_before(image: &LoadedImage, load: u64, path: &String) -> (r: bool)
    ensures
        r == image_key_lt(image_view(*image), (load, path@)),
{
    if image.load_address != load {
        image.load_address < load
    } else {
        let c = crate::text::compare_str(image.path.as_str(), path.as_str());
        proof {
            crate::text::lemma_chars_order(image.path@, path@);
        }
        c == -1
    }
}

/// Inserts an image into a list ordered by `image_key_lt`, unless it is there.
fn insert_image(images: &mut Vec<LoadedImage>, load: u64, path: String)
    requires
        forall|i: int, j: int| 0 <= i < j < old(images)@.len() ==> image_key_lt(image_view(old(images)@[i]), image_view(old(images)@[j])),
    ensures
        forall|i: int, j: int| 0 <= i < j < final(images)@.len() ==> image_key_lt(image_view(final(images)@[i]), image_view(final(images)@[j])),
        forall|k: (u64, Seq<char>)| image_views(final(images)@).contains(k) <==> (image_views(old(images)@).contains(k) || k == (load, path@)),
{
    proof {
        lemma_image_key_order();
    }
    let ghost key = (load, path@);
    let ghost before = images@;
    let mut p: usize = 0;
    while p < images.len() && image_key_before(&images[p], load, &path)
        invariant
            images@ == before,
            key == (load, path@),
            p <= images@.len(),
            forall|i: int| 0 <= i < p ==> image_key_lt(image_view(images@[i]), key),
        decreases images@.len() - p,
    {
        p = p + 1;
    }
    proof {
        assert forall|k: (u64, Seq<char>)| image_views(before).contains(k) <==> exists|i: int| 0 <= i < before.len() && image_view(before[i]) == k by {
            if image_views(before).contains(k) {
                let i = choose|i: int| 0 <= i < image_views(before).len() && image_views(before)[i] == k;
                assert(image_view(before[i]) == k);
            }
            if exists|i: int| 0 <= i < before.len() && image_view(before[i]) == k {
                let i = choose|i: int| 0 <= i < before.len() && image_view(before[i]) == k;
                assert(image_views(before)[i] == k);
            }
        }
    }
    if p < images.len() && images[p].load_address == load && crate::text::compare_str(images[p].path.as_str(), path.as_str()) == 0 {
        proof {
            crate::text::lemma_chars_order(images@[p as int].path@, path@);
            assert(image_views(before)[p as int] == key);
        }
        return;
    }
    proof {
        if p < images@.len() {
            crate::text::lemma_chars_order(images@[p as int].path@, path@);
            assert(image_view(images@[p as int]) != key);
            assert(!image_key_lt(image_view(images@[p as int]), key));
            assert(image_key_lt(key, image_view(images@[p as int])));
        }
    }
    images.insert(p, LoadedImage { load_address: load, path });
    proof {
        let s = before;
        let n = images@;
        assert(n =~= s.subrange(0, p as int).push(n[p as int]) + s.subrange(p as int, s.len() as int));
        assert(image_view(n[p as int]) == key);
        assert forall|i: int, j: int| 0 <= i < j < n.len() implies image_key_lt(image_view(n[i]), image_view(n[j])) by {
            if j < p {
                assert(n[i] == s[i] && n[j] == s[j]);
            } else if j == p {
                assert(n[i] == s[i]);
            } else if i < p {
                assert(n[i] == s[i] && n[j] == s[j - 1]);
                assert(image_key_lt(key, image_view(s[p as int])));
                if j - 1 > p {
                    assert(image_key_lt(image_view(s[p as int]), image_view(s[j - 1])));
                }
            } else if i == p {
                assert(n[j] == s[j - 1]);
                if j - 1 > p {
                    assert(image_key_lt(image_view(s[p as int]), image_view(s[j - 1])));
                }
            } else {
                assert(n[i] == s[i - 1] && n[j] == s[j - 1]);
            }
        }
        assert forall|k: (u64, Seq<char>)| image_views(n).contains(k) <==> (image_views(s).contains(k) || k == key) by {
            if image_views(n).contains(k) {
                let i = choose|i: int| 0 <= i < image_views(n).len() && image_views(n)[i] == k;
                if i < p {
                    assert(image_view(s[i]) == k);
                } else if i > p {
                    assert(image_view(s[i - 1]) == k);
                }
            }
            if image_views(s).contains(k) {
                let i = choose|i: int| 0 <= i < s.len() && image_view(s[i]) == k;
                if i < p {
                    assert(image_views(n)[i] == k);
                } else {
                    assert(image_views(n)[i + 1] == k);
                }
            }
            if k == key {
                assert(image_views(n)[p as int] == k);
            }
        }
    }
}

/// The images a `/proc/<pid>/maps` text lists: one per distinct load bias
/// and path (see `image_of_line`), ordered by load address, then path.
pub fn parse_loaded_images(maps: &str) -> (r: Vec<LoadedImage>)
    requires
        maps_escapes_fit(maps@),
    ensures
        forall|i: int, j: int| 0 <= i < j < r@.len() ==> image_key_lt(image_view(r@[i]), image_view(r@[j])),
        forall|k: (u64, Seq<char>)|
            image_views(r@).contains(k) <==> exists|i: int|
                0 <= i < text_lines(maps@).len() && #[trigger] image_of_line(text_lines(maps@)[i]) == Some(k),
{
    let chars = chars_of(maps);
    let lines = split_lines(&chars);
    let ghost ls = text_lines(maps@);
    proof {
        assert(lines@.map_values(|l: Vec<char>| l@) == ls);
    }
    let mut out: Vec<LoadedImage> = Vec::new();
    let mut i: usize = 0;
    while i < lines.len()
        invariant
            ls == text_lines(maps@),
            lines@.map_values(|l: Vec<char>| l@) == ls,
            maps_escapes_fit(maps@),
            i <= lines@.len(),
            forall|a: int, b: int| 0 <= a < b < out@.len() ==> image_key_lt(image_view(out@[a]), image_view(out@[b])),
            forall|k: (u64, Seq<char>)|
                image_views(out@).contains(k) <==> exists|j: int| 0 <= j < i && #[trigger] image_of_line(ls[j]) == Some(k),
        decreases lines@.len() - i,
    {
        proof {
            assert(lines@[i as int]@ == ls[i as int]);
        }
        let ghost before = out@;
        match raw_image_exec(&lines[i]) {
            Some((load, path)) => {
                let path_text = collect_chars(path);
                proof {
                    assert(raw_image_of(ls[i as int]) is Some);
                }
                let unescaped = unescape_proc_path(path_text.as_str());
                insert_image(&mut out, load, unescaped);
                proof {
                    assert forall|k: (u64, Seq<char>)|
                        image_views(out@).contains(k) <==> exists|j: int| 0 <= j < i + 1 && #[trigger] image_of_line(ls[j]) == Some(k) by {
                        if k == (load, unescaped@) {
                            assert(image_of_line(ls[i as int]) == Some(k));
                        }
                        if exists|j: int| 0 <= j < i + 1 && #[trigger] image_of_line(ls[j]) == Some(k) {
                            let j = choose|j: int| 0 <= j < i + 1 && #[trigger] image_of_line(ls[j]) == Some(k);
                            if j == i {
                                assert(k == (load, unescaped@));
                            }
                        }
                    }
                }
            },
            None => {
                proof {
                    assert(image_of_line(ls[i as int]) is None);
                    assert forall|k: (u64, Seq<char>)|
                        image_views(out@).contains(k) <==> exists|j: int| 0 <= j < i + 1 && #[trigger] image_of_line(ls[j]) == Some(k) by {
                        if exists|j: int| 0 <= j < i + 1 && #[trigger] image_of_line(ls[j]) == Some(k) {
                            let j = choose|j: int| 0 <= j < i + 1 && #[trigger] image_of_line(ls[j]) == Some(k);
                            assert(j != i);
                        }
                    }
                }
            },
        }
        i = i + 1;
    }
    out
}

/// Whether every octal escape of `bytes` denotes a byte (see `escapes_fit`).
pub fn escapes_fit_check(bytes: &[u8]) -> (r: bool)
    ensures
        r == escapes_fit(bytes@),
{
    let mut i: usize = 0;
    while i < bytes.len()
        invariant
            i <= bytes@.len(),
            forall|k: int| 0 <= k < i ==> #[trigger] octal_escape_at(bytes@, k) ==> bytes@[k + 1] <= 51,
        decreases bytes@.len() - i,
    {
        if bytes[i] == 92 && bytes.len() >= 4 && i < bytes.len() - 3 && 48 <= bytes[i + 1] && bytes[i + 1] <= 55
            && 48 <= bytes[i + 2] && bytes[i + 2] <= 55 && 48 <= bytes[i + 3] && bytes[i + 3] <= 55 {
            if bytes[i + 1] > 51 {
                proof {
                    assert(octal_escape_at(bytes@, i as int));
                }
                return false;
            }
        }
        i = i + 1;
    }
    proof {
        assert forall|k: int| #[trigger] octal_escape_at(bytes@, k) implies bytes@[k + 1] <= 51 by {
            assert(0 <= k < bytes@.len());
        }
    }
    true
}

/// Whether every path a maps text names has escapes that denote bytes
/// (see `maps_escapes_fit`), as `parse_loaded_images` needs.
pub fn maps_escapes_ok(maps: &str) -> (r: bool)
    ensures
        r == maps_escapes_fit(maps@),
{
    let chars = chars_of(maps);
    let lines = split_lines(&chars);
    let ghost ls = text_lines(maps@);
    proof {
        assert(lines@.map_values(|l: Vec<char>| l@) == ls);
    }
    let mut i: usize = 0;
    while i < lines.len()
        invariant
            ls == text_lines(maps@),
            lines@.map_values(|l: Vec<char>| l@) == ls,
            i <= lines@.len(),
            forall|k: int|
                0 <= k < i ==> match #[trigger] raw_image_of(ls[k]) {
                    Some((_, path)) => escapes_fit(encode_utf8(path)),
                    None => true,
                },
        decreases lines@.len() - i,
    {
        proof {
            assert(lines@[i as int]@ == ls[i as int]);
        }
        match raw_image_exec(&lines[i]) {
            Some((_, path)) => {
                let text = collect_chars(path);
                if !escapes_fit_check(text.as_str().as_bytes()) {
                    return false;
                }
            },
            None => {},
        }
        i = i + 1;
    }
    true
}

} // verus!
