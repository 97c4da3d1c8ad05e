//! The pprof protobuf of a symbolicated profile.

use std::collections::HashMap;

use bytes::Bytes;
use vstd::prelude::*;

use crate::pprof::{
    encode_profile, first_index_of, location_views, sample_views, Function, Label, Line, Location, LocationModel,
    Mapping, PprofProfile, ProfileModel, Sample, SampleModel, StringTable, ValueType,
};
use crate::sampler::LoadedImage;
use crate::symbolicated::{StackFrame, SymbolicatedProfile};

verus! {

broadcast use vstd::std_specs::hash::group_hash_axioms;

// ---------------------------------------------------------------------------
// Byte buffers
// ---------------------------------------------------------------------------

#[verifier::external_type_specification]
#[verifier::external_body]
pub struct ExBytes(Bytes);

/// The bytes a `Bytes` buffer holds, in order.
pub uninterp spec fn bytes_content(b: Bytes) -> Seq<u8>;

/// `Bytes::from(Vec<u8>)` takes the vector's buffer over: the result holds
/// exactly the vector's bytes, in order.
#[verifier::external_body]
fn bytes_from_vec(v: Vec<u8>) -> (r: Bytes)
    ensures
        bytes_content(r) == v@,
{
    Bytes::from(v)
}

// ---------------------------------------------------------------------------
// The model: string interning
// ---------------------------------------------------------------------------

/// The table after interning `s`, and the index `s` has in it.
pub open spec fn intern_spec(table: Seq<Seq<char>>, s: Seq<char>) -> (Seq<Seq<char>>, u64) {
    match first_index_of(table, s) {
        Some(i) => (table, i as u64),
        None => (table.push(s), table.len() as u64),
    }
}

/// Interning a string a second time finds it where the first time left it,
/// and leaves the table as it was.
pub proof fn lemma_intern_idempotent(table: Seq<Seq<char>>, s: Seq<char>)
    ensures
        intern_spec(intern_spec(table, s).0, s) == intern_spec(table, s),
{
    let (t1, i1) = intern_spec(table, s);
    match first_index_of(table, s) {
        Some(i) => {},
        None => {
            assert(t1[table.len() as int] == s);
            lemma_first_index_of(t1, s, table.len() as int);
            let j = first_index_of(t1, s).unwrap();
            if j < table.len() {
                assert(t1[j] == table[j]);
                assert(exists|k: int| 0 <= k < table.len() && table[k] == s);
            }
        },
    }
}

// ---------------------------------------------------------------------------
// The model: mappings
// ---------------------------------------------------------------------------

/// An image as the mapping table sees it: load address, path, and the size
/// of its file on disk where that is known.
pub open spec fn image_entries(images: Seq<LoadedImage>, sizes: Seq<Option<u64>>) -> Seq<(u64, Seq<char>, Option<u64>)> {
    Seq::new(
        images.len(),
        |i: int|
            (images[i].load_address, images[i].path@, if i < sizes.len() {
                sizes[i]
            } else {
                None
            }),
    )
}

/// `x` placed before the first entry that loads above it: one step of a
/// stable sort by load address.
pub open spec fn insert_by_load(
    s: Seq<(u64, Seq<char>, Option<u64>)>,
    x: (u64, Seq<char>, Option<u64>),
) -> Seq<(u64, Seq<char>, Option<u64>)>
    decreases s.len(),
{
    if s.len() == 0 {
        seq![x]
    } else if s[0].0 > x.0 {
        seq![x] + s
    } else {
        seq![s[0]] + insert_by_load(s.drop_first(), x)
    }
}

/// The entries sorted by load address; entries that load at the same
/// address keep their order.
pub open spec fn sort_by_load(s: Seq<(u64, Seq<char>, Option<u64>)>) -> Seq<(u64, Seq<char>, Option<u64>)>
    decreases s.len(),
{
    if s.len() == 0 {
        Seq::empty()
    } else {
        insert_by_load(sort_by_load(s.drop_last()), s.last())
    }
}

/// Where the image at `i` of the sorted table ends: where the next one
/// loads, else its load address plus its file size, else one byte further
/// (both saturating).
pub open spec fn memory_limit(sorted: Seq<(u64, Seq<char>, Option<u64>)>, i: int) -> u64 {
    if i + 1 < sorted.len() {
        sorted[i + 1].0
    } else {
        let load = sorted[i].0;
        let extent: u64 = match sorted[i].2 {
            Some(size) => size,
            None => 1,
        };
        if load + extent > u64::MAX {
            u64::MAX
        } else {
            (load + extent) as u64
        }
    }
}

/// The mapping of the image at `i` of the sorted table, with its file name
/// at `filename` in the string table.
pub open spec fn mapping_of(sorted: Seq<(u64, Seq<char>, Option<u64>)>, i: int, filename: u64) -> Mapping {
    Mapping {
        id: (i + 1) as u64,
        memory_start: sorted[i].0,
        memory_limit: memory_limit(sorted, i),
        file_offset: 0,
        filename,
        build_id: 0,
        has_functions: false,
        has_filenames: false,
        has_line_numbers: false,
        has_inline_frames: false,
    }
}

/// Inserting into a table sorted by load address keeps it sorted, and adds
/// exactly the one entry.
pub proof fn lemma_insert_by_load_sorted(s: Seq<(u64, Seq<char>, Option<u64>)>, x: (u64, Seq<char>, Option<u64>))
    requires
        forall|i: int, j: int| 0 <= i < j < s.len() ==> s[i].0 <= s[j].0,
    ensures
        forall|i: int, j: int|
            0 <= i < j < insert_by_load(s, x).len() ==> insert_by_load(s, x)[i].0 <= insert_by_load(s, x)[j].0,
        insert_by_load(s, x).to_multiset() == s.to_multiset().insert(x),
    decreases s.len(),
{
    broadcast use vstd::seq_lib::group_to_multiset_ensures;

    if s.len() == 0 {
        assert(seq![x] =~= Seq::<(u64, Seq<char>, Option<u64>)>::empty().push(x));
    } else if s[0].0 > x.0 {
        let r = seq![x] + s;
        assert forall|i: int, j: int| 0 <= i < j < r.len() implies r[i].0 <= r[j].0 by {
            if i > 0 {
                assert(r[i] == s[i - 1] && r[j] == s[j - 1]);
            } else {
                assert(r[j] == s[j - 1]);
                assert(s[0].0 <= s[j - 1].0);
            }
        }
        vstd::seq_lib::lemma_multiset_commutative(seq![x], s);
        assert(seq![x] =~= Seq::<(u64, Seq<char>, Option<u64>)>::empty().push(x));
        assert(seq![x].to_multiset() =~= vstd::multiset::Multiset::empty().insert(x));
    } else {
        let t = s.drop_first();
        lemma_insert_by_load_sorted(t, x);
        let u = insert_by_load(t, x);
        let r = seq![s[0]] + u;
        assert forall|i: int, j: int| 0 <= i < j < r.len() implies r[i].0 <= r[j].0 by {
            if i > 0 {
                assert(r[i] == u[i - 1] && r[j] == u[j - 1]);
            } else {
                assert(r[j] == u[j - 1]);
                assert(u.to_multiset().count(u[j - 1]) > 0);
                if u[j - 1] != x {
                    assert(t.to_multiset().count(u[j - 1]) > 0);
                    let k = choose|k: int| 0 <= k < t.len() && t[k] == u[j - 1];
                    assert(t[k] == s[k + 1]);
                }
            }
        }
        vstd::seq_lib::lemma_multiset_commutative(seq![s[0]], u);
        vstd::seq_lib::lemma_multiset_commutative(seq![s[0]], t);
        assert(s =~= seq![s[0]] + t);
    }
}

/// `sort_by_load` sorts by load address and keeps every entry.
pub proof fn lemma_sort_by_load_sorted(s: Seq<(u64, Seq<char>, Option<u64>)>)
    ensures
        forall|i: int, j: int| 0 <= i < j < sort_by_load(s).len() ==> sort_by_load(s)[i].0 <= sort_by_load(s)[j].0,
        sort_by_load(s).to_multiset() == s.to_multiset(),
    decreases s.len(),
{
    broadcast use vstd::seq_lib::group_to_multiset_ensures;

    if s.len() > 0 {
        lemma_sort_by_load_sorted(s.drop_last());
        lemma_insert_by_load_sorted(sort_by_load(s.drop_last()), s.last());
        assert(s =~= s.drop_last().push(s.last()));
    }
}

/// The string table and the mappings after the first `k` sorted images.
pub open spec fn mapping_table(
    table: Seq<Seq<char>>,
    sorted: Seq<(u64, Seq<char>, Option<u64>)>,
    k: nat,
) -> (Seq<Seq<char>>, Seq<Mapping>)
    decreases k,
{
    if k == 0 {
        (table, Seq::empty())
    } else {
        let (t, ms) = mapping_table(table, sorted, (k - 1) as nat);
        let (t2, filename) = intern_spec(t, sorted[k - 1].1);
        (t2, ms.push(mapping_of(sorted, k - 1, filename)))
    }
}

/// How many images load at or below `addr`; on a table sorted by load
/// address this is the id of the mapping that holds `addr` (0: none).
pub open spec fn loaded_at_or_below(sorted: Seq<(u64, Seq<char>, Option<u64>)>, addr: u64) -> nat
    decreases sorted.len(),
{
    if sorted.len() == 0 {
        0
    } else {
        loaded_at_or_below(sorted.drop_last(), addr) + if sorted.last().0 <= addr {
            1nat
        } else {
            0nat
        }
    }
}

// ---------------------------------------------------------------------------
// The model: functions, locations and samples
// ---------------------------------------------------------------------------

/// What the encoder has built while it walks the samples: the string
/// table, the functions and locations so far, the id given to each address
/// that has a location, and the samples so far.
#[verifier::ext_equal]
pub struct ProtoState {
    pub strings: Seq<Seq<char>>,
    pub functions: Seq<Function>,
    pub locations: Seq<LocationModel>,
    pub ids: Map<u64, u64>,
    pub samples: Seq<SampleModel>,
}

/// The string table indices of the label keys and of the timestamp unit.
#[derive(Clone, Copy)]
pub struct LabelKeys {
    pub thread_id: u64,
    pub thread_name: u64,
    pub timestamp: u64,
    pub nanoseconds: u64,
}

/// The id after `n`: one more, wrapping at the top of `u64`.
pub open spec fn next_id(n: u64) -> u64 {
    if n == u64::MAX {
        0
    } else {
        (n + 1) as u64
    }
}

/// Adds the location of `addr` if it has a frame and no location yet; the
/// location id, if it has a frame, comes out beside the new state.
pub open spec fn add_frame(
    st: ProtoState,
    frames: Map<u64, StackFrame>,
    sorted: Seq<(u64, Seq<char>, Option<u64>)>,
    addr: u64,
) -> (ProtoState, Option<u64>) {
    if !frames.contains_key(addr) {
        (st, None)
    } else if st.ids.contains_key(addr) {
        (st, Some(st.ids[addr]))
    } else {
        let frame = frames[addr];
        let id = next_id(st.locations.len() as u64);
        let (t1, name) = intern_spec(st.strings, frame.function@);
        let (t2, file) = intern_spec(t1, frame.file@);
        let function = Function { id, name, system_name: name, filename: file, start_line: 0 };
        let location = LocationModel {
            id,
            mapping_id: loaded_at_or_below(sorted, addr) as u64,
            address: addr,
            lines: seq![Line { function_id: id, line: frame.line as i64, column: 0 }],
            is_folded: false,
        };
        (
            ProtoState {
                strings: t2,
                functions: st.functions.push(function),
                locations: st.locations.push(location),
                ids: st.ids.insert(addr, id),
                samples: st.samples,
            },
            Some(id),
        )
    }
}

/// The state after the addresses of `stack`, and the location ids of those
/// that have a frame, in stack order.
pub open spec fn stack_locations(
    st: ProtoState,
    frames: Map<u64, StackFrame>,
    sorted: Seq<(u64, Seq<char>, Option<u64>)>,
    stack: Seq<u64>,
) -> (ProtoState, Seq<u64>)
    decreases stack.len(),
{
    if stack.len() == 0 {
        (st, Seq::empty())
    } else {
        let (st1, ids) = stack_locations(st, frames, sorted, stack.drop_last());
        let (st2, found) = add_frame(st1, frames, sorted, stack.last());
        (st2, match found {
            Some(id) => ids.push(id),
            None => ids,
        })
    }
}

/// The name recorded for a thread, empty where none is.
pub open spec fn thread_name_of(threads: Map<u64, String>, thread_id: u64) -> Seq<char> {
    if threads.contains_key(thread_id) {
        threads[thread_id]@
    } else {
        Seq::empty()
    }
}

/// A timestamp as a label number: clamped to `i64::MAX`.
pub open spec fn clamp_to_i64(t: u64) -> i64 {
    if t > i64::MAX as u64 {
        i64::MAX
    } else {
        t as i64
    }
}

/// The labels of a sample: its thread id, its thread name where it has a
/// non-empty one (at `name_index`), and its timestamp where it has one.
pub open spec fn sample_labels(
    keys: LabelKeys,
    sample: crate::symbolicated::Sample,
    name: Seq<char>,
    name_index: u64,
) -> Seq<Label> {
    let base = seq![Label { key: keys.thread_id, str_index: 0, num: sample.thread_id as i64, num_unit: 0 }];
    let named = if name.len() > 0 {
        base.push(Label { key: keys.thread_name, str_index: name_index, num: 0, num_unit: 0 })
    } else {
        base
    };
    match sample.timestamp_nanos {
        Some(t) => named.push(
            Label { key: keys.timestamp, str_index: 0, num: clamp_to_i64(t), num_unit: keys.nanoseconds },
        ),
        None => named,
    }
}

/// The state after one sample: its frames, then, if any of them has a
/// location, the sample itself with its count and labels.
pub open spec fn sample_step(
    st: ProtoState,
    frames: Map<u64, StackFrame>,
    threads: Map<u64, String>,
    sorted: Seq<(u64, Seq<char>, Option<u64>)>,
    keys: LabelKeys,
    sample: crate::symbolicated::Sample,
) -> ProtoState {
    let (st1, ids) = stack_locations(st, frames, sorted, sample.stack@);
    if ids.len() == 0 {
        st1
    } else {
        let name = thread_name_of(threads, sample.thread_id);
        let (t2, name_index) = if name.len() > 0 {
            intern_spec(st1.strings, name)
        } else {
            (st1.strings, 0u64)
        };
        let model = SampleModel {
            location_ids: ids,
            values: seq![sample.count as i64],
            labels: sample_labels(keys, sample, name, name_index),
        };
        ProtoState {
            strings: t2,
            functions: st1.functions,
            locations: st1.locations,
            ids: st1.ids,
            samples: st1.samples.push(model),
        }
    }
}

/// The state after all of `samples`, in order.
pub open spec fn samples_fold(
    st: ProtoState,
    frames: Map<u64, StackFrame>,
    threads: Map<u64, String>,
    sorted: Seq<(u64, Seq<char>, Option<u64>)>,
    keys: LabelKeys,
    samples: Seq<crate::symbolicated::Sample>,
) -> ProtoState
    decreases samples.len(),
{
    if samples.len() == 0 {
        st
    } else {
        sample_step(
            samples_fold(st, frames, threads, sorted, keys, samples.drop_last()),
            frames,
            threads,
            sorted,
            keys,
            samples.last(),
        )
    }
}

// ---------------------------------------------------------------------------
// The model: the whole profile
// ---------------------------------------------------------------------------

/// The string table with the names the header and the labels use, and
/// their indices: samples, count, cpu, nanoseconds, thread_id, thread_name,
/// the timestamp label key, and nanoseconds again as the timestamp unit.
pub open spec fn header_strings() -> (Seq<Seq<char>>, Seq<u64>) {
    let t0 = seq![Seq::<char>::empty()];
    let (t1, a) = intern_spec(t0, "samples"@);
    let (t2, b) = intern_spec(t1, "count"@);
    let (t3, c) = intern_spec(t2, "cpu"@);
    let (t4, d) = intern_spec(t3, "nanoseconds"@);
    let (t5, e) = intern_spec(t4, "thread_id"@);
    let (t6, f) = intern_spec(t5, "thread_name"@);
    let (t7, g) = intern_spec(t6, "pprofessor::timestamp"@);
    let (t8, h) = intern_spec(t7, "nanoseconds"@);
    (t8, seq![a, b, c, d, e, f, g, h])
}

/// The pprof profile of `profile`, where `sizes[i]` is the file size of
/// `profile.images[i]` where it is known: one sample type (samples/count),
/// a cpu/nanoseconds period of one sampling interval, the images as
/// mappings sorted by load address, one function and one location per
/// address that has a frame (ids in order of first use, the location in
/// the mapping that holds it), and one sample per sample with at least one
/// such address.
pub open spec fn proto_model(profile: SymbolicatedProfile, sizes: Seq<Option<u64>>) -> ProfileModel {
    let (t8, h) = header_strings();
    let sorted = sort_by_load(image_entries(profile.images@, sizes));
    let (t9, mappings) = mapping_table(t8, sorted, sorted.len());
    let keys = LabelKeys { thread_id: h[4], thread_name: h[5], timestamp: h[6], nanoseconds: h[7] };
    let st0 = ProtoState {
        strings: t9,
        functions: Seq::empty(),
        locations: Seq::empty(),
        ids: Map::empty(),
        samples: Seq::empty(),
    };
    let st = samples_fold(st0, profile.frames@, profile.threads@, sorted, keys, profile.samples@);
    ProfileModel {
        strings: st.strings,
        value_types: seq![ValueType { type_: h[0], unit: h[1] }],
        samples: st.samples,
        mappings,
        locations: st.locations,
        functions: st.functions,
        time_nanos: profile.start_time_unix_nanos as i64,
        duration_nanos: profile.duration_nanos as i64,
        period_type: ValueType { type_: h[2], unit: h[3] },
        period: (1_000_000_000int / (profile.freq_hz as int)) as i64,
        drop_frames: 0,
        keep_frames: 0,
        comments: Seq::empty(),
        default_sample_type: 0,
    }
}

// ---------------------------------------------------------------------------
// The model is canonical: what is encoded decodes back
// ---------------------------------------------------------------------------

/// How many addresses the stacks of `samples` hold in all.
pub open spec fn address_count(samples: Seq<crate::symbolicated::Sample>) -> nat
    decreases samples.len(),
{
    if samples.len() == 0 {
        0
    } else {
        address_count(samples.drop_last()) + samples.last().stack@.len()
    }
}

/// The string table starts with "" and no function, location, line,
/// sample or label built so far would be dropped by the encoding.
pub open spec fn parts_canonical(st: ProtoState) -> bool {
    &&& st.strings.len() > 0
    &&& st.strings[0].len() == 0
    &&& forall|i: int| 0 <= i < st.functions.len() ==> #[trigger] st.functions[i].id != 0
    &&& forall|i: int| 0 <= i < st.locations.len() ==> #[trigger] st.locations[i].lines.len() > 0
    &&& forall|i: int, j: int|
        0 <= i < st.locations.len() && 0 <= j < st.locations[i].lines.len() ==> #[trigger] st.locations[i].lines[j].function_id
            != 0
    &&& forall|i: int| 0 <= i < st.samples.len() ==> #[trigger] st.samples[i].location_ids.len() > 0
    &&& forall|i: int, j: int|
        0 <= i < st.samples.len() && 0 <= j < st.samples[i].labels.len() ==> #[trigger] st.samples[i].labels[j].key != 0
}

proof fn lemma_intern_keeps_head(t: Seq<Seq<char>>, s: Seq<char>)
    requires
        t.len() > 0,
        t[0].len() == 0,
    ensures
        intern_spec(t, s).0.len() > 0,
        intern_spec(t, s).0[0].len() == 0,
        intern_spec(t, s).0.len() <= t.len() + 1,
        s.len() > 0 && t.len() < u64::MAX ==> intern_spec(t, s).1 != 0,
{
    if exists|k: int| 0 <= k < t.len() && t[k] == s {
        let k = choose|k: int| 0 <= k < t.len() && t[k] == s;
        lemma_first_index_of(t, s, k);
    }
}

/// Where `s` occurs in `t`, `first_index_of` finds an occurrence.
proof fn lemma_first_index_of(t: Seq<Seq<char>>, s: Seq<char>, k: int)
    requires
        0 <= k < t.len(),
        t[k] == s,
    ensures
        first_index_of(t, s) matches Some(i) && 0 <= i < t.len() && t[i] == s,
    decreases k,
{
    if exists|j: int| 0 <= j < k && t[j] == s {
        let j = choose|j: int| 0 <= j < k && t[j] == s;
        lemma_first_index_of(t, s, j);
    } else {
        assert(0 <= k < t.len() && t[k] == s && (forall|j: int| 0 <= j < k ==> t[j] != s));
    }
}

proof fn lemma_add_frame_canonical(
    st: ProtoState,
    frames: Map<u64, StackFrame>,
    sorted: Seq<(u64, Seq<char>, Option<u64>)>,
    addr: u64,
)
    requires
        parts_canonical(st),
        st.locations.len() < u64::MAX,
    ensures
        parts_canonical(add_frame(st, frames, sorted, addr).0),
        add_frame(st, frames, sorted, addr).0.locations.len() <= st.locations.len() + 1,
        add_frame(st, frames, sorted, addr).0.samples == st.samples,
{
    if frames.contains_key(addr) && !st.ids.contains_key(addr) {
        let frame = frames[addr];
        lemma_intern_keeps_head(st.strings, frame.function@);
        let (t1, name) = intern_spec(st.strings, frame.function@);
        lemma_intern_keeps_head(t1, frame.file@);
        let r = add_frame(st, frames, sorted, addr).0;
        assert forall|i: int, j: int|
            0 <= i < r.locations.len() && 0 <= j < r.locations[i].lines.len() implies #[trigger] r.locations[i].lines[j].function_id
                != 0 by {
            if i < st.locations.len() {
                assert(r.locations[i] == st.locations[i]);
            }
        }
        assert forall|i: int| 0 <= i < r.functions.len() implies #[trigger] r.functions[i].id != 0 by {
            if i < st.functions.len() {
                assert(r.functions[i] == st.functions[i]);
            }
        }
        assert forall|i: int| 0 <= i < r.locations.len() implies #[trigger] r.locations[i].lines.len() > 0 by {
            if i < st.locations.len() {
                assert(r.locations[i] == st.locations[i]);
            }
        }
    }
}

proof fn lemma_stack_canonical(
    st: ProtoState,
    frames: Map<u64, StackFrame>,
    sorted: Seq<(u64, Seq<char>, Option<u64>)>,
    stack: Seq<u64>,
)
    requires
        parts_canonical(st),
        st.locations.len() + stack.len() <= u64::MAX,
    ensures
        parts_canonical(stack_locations(st, frames, sorted, stack).0),
        stack_locations(st, frames, sorted, stack).0.locations.len() <= st.locations.len() + stack.len(),
        stack_locations(st, frames, sorted, stack).0.samples == st.samples,
        stack.len() == 0 ==> stack_locations(st, frames, sorted, stack).1.len() == 0,
    decreases stack.len(),
{
    if stack.len() > 0 {
        lemma_stack_canonical(st, frames, sorted, stack.drop_last());
        let st1 = stack_locations(st, frames, sorted, stack.drop_last()).0;
        lemma_add_frame_canonical(st1, frames, sorted, stack.last());
    }
}

proof fn lemma_sample_canonical(
    st: ProtoState,
    frames: Map<u64, StackFrame>,
    threads: Map<u64, String>,
    sorted: Seq<(u64, Seq<char>, Option<u64>)>,
    keys: LabelKeys,
    sample: crate::symbolicated::Sample,
)
    requires
        parts_canonical(st),
        st.locations.len() + sample.stack@.len() <= u64::MAX,
        keys.thread_id != 0,
        keys.thread_name != 0,
        keys.timestamp != 0,
    ensures
        parts_canonical(sample_step(st, frames, threads, sorted, keys, sample)),
        sample_step(st, frames, threads, sorted, keys, sample).locations.len() <= st.locations.len()
            + sample.stack@.len(),
{
    lemma_stack_canonical(st, frames, sorted, sample.stack@);
    let (st1, ids) = stack_locations(st, frames, sorted, sample.stack@);
    if ids.len() > 0 {
        let name = thread_name_of(threads, sample.thread_id);
        lemma_intern_keeps_head(st1.strings, name);
        let r = sample_step(st, frames, threads, sorted, keys, sample);
        let name_index = if name.len() > 0 {
            intern_spec(st1.strings, name).1
        } else {
            0u64
        };
        let labels = sample_labels(keys, sample, name, name_index);
        assert forall|j: int| 0 <= j < labels.len() implies #[trigger] labels[j].key != 0 by {}
        assert forall|i: int, j: int|
            0 <= i < r.samples.len() && 0 <= j < r.samples[i].labels.len() implies #[trigger] r.samples[i].labels[j].key
                != 0 by {
            if i < st1.samples.len() {
                assert(r.samples[i] == st1.samples[i]);
            }
        }
        assert forall|i: int| 0 <= i < r.samples.len() implies #[trigger] r.samples[i].location_ids.len() > 0 by {
            if i < st1.samples.len() {
                assert(r.samples[i] == st1.samples[i]);
            }
        }
    }
}

proof fn lemma_fold_canonical(
    st: ProtoState,
    frames: Map<u64, StackFrame>,
    threads: Map<u64, String>,
    sorted: Seq<(u64, Seq<char>, Option<u64>)>,
    keys: LabelKeys,
    samples: Seq<crate::symbolicated::Sample>,
)
    requires
        parts_canonical(st),
        st.locations.len() + address_count(samples) <= u64::MAX,
        keys.thread_id != 0,
        keys.thread_name != 0,
        keys.timestamp != 0,
    ensures
        parts_canonical(samples_fold(st, frames, threads, sorted, keys, samples)),
        samples_fold(st, frames, threads, sorted, keys, samples).locations.len() <= st.locations.len()
            + address_count(samples),
    decreases samples.len(),
{
    if samples.len() > 0 {
        lemma_fold_canonical(st, frames, threads, sorted, keys, samples.drop_last());
        let mid = samples_fold(st, frames, threads, sorted, keys, samples.drop_last());
        lemma_sample_canonical(mid, frames, threads, sorted, keys, samples.last());
    }
}

proof fn lemma_mapping_table_canonical(table: Seq<Seq<char>>, sorted: Seq<(u64, Seq<char>, Option<u64>)>, k: nat)
    requires
        table.len() > 0,
        table[0].len() == 0,
        k <= sorted.len(),
        sorted.len() < u64::MAX,
    ensures
        mapping_table(table, sorted, k).0.len() > 0,
        mapping_table(table, sorted, k).0[0].len() == 0,
        mapping_table(table, sorted, k).1.len() == k,
        forall|i: int| 0 <= i < k ==> (#[trigger] mapping_table(table, sorted, k).1[i]).id != 0,
    decreases k,
{
    if k > 0 {
        lemma_mapping_table_canonical(table, sorted, (k - 1) as nat);
        let (t, ms) = mapping_table(table, sorted, (k - 1) as nat);
        lemma_intern_keeps_head(t, sorted[k - 1].1);
        let r = mapping_table(table, sorted, k).1;
        assert forall|i: int| 0 <= i < k implies (#[trigger] r[i]).id != 0 by {
            if i < k - 1 {
                assert(r[i] == ms[i]);
            }
        }
    }
}

proof fn lemma_header_strings()
    ensures
        header_strings().0.len() > 0,
        header_strings().0[0].len() == 0,
        forall|i: int| 0 <= i < 8 ==> #[trigger] header_strings().1[i] != 0,
{
    reveal_strlit("samples");
    reveal_strlit("count");
    reveal_strlit("cpu");
    reveal_strlit("nanoseconds");
    reveal_strlit("thread_id");
    reveal_strlit("thread_name");
    reveal_strlit("pprofessor::timestamp");
    let t0 = seq![Seq::<char>::empty()];
    lemma_intern_keeps_head(t0, "samples"@);
    let (t1, a) = intern_spec(t0, "samples"@);
    lemma_intern_keeps_head(t1, "count"@);
    let (t2, b) = intern_spec(t1, "count"@);
    lemma_intern_keeps_head(t2, "cpu"@);
    let (t3, c) = intern_spec(t2, "cpu"@);
    lemma_intern_keeps_head(t3, "nanoseconds"@);
    let (t4, d) = intern_spec(t3, "nanoseconds"@);
    lemma_intern_keeps_head(t4, "thread_id"@);
    let (t5, e) = intern_spec(t4, "thread_id"@);
    lemma_intern_keeps_head(t5, "thread_name"@);
    let (t6, f) = intern_spec(t5, "thread_name"@);
    lemma_intern_keeps_head(t6, "pprofessor::timestamp"@);
    let (t7, g) = intern_spec(t6, "pprofessor::timestamp"@);
    lemma_intern_keeps_head(t7, "nanoseconds"@);
    let h = header_strings().1;
    assert(h == seq![a, b, c, d, e, f, g, intern_spec(t7, "nanoseconds"@).1]);
}

/// What `build_proto` encodes decodes back to the same profile model: the
/// model is canonical (nothing in it is dropped by the encoding), for every
/// profile whose stacks hold fewer than 2^64 - 1 addresses in all and whose
/// encoding fits in memory.
pub proof fn lemma_proto_model_decodes(profile: SymbolicatedProfile, sizes: Seq<Option<u64>>)
    requires
        address_count(profile.samples@) < u64::MAX,
        profile.images@.len() < u64::MAX,
        encode_profile(proto_model(profile, sizes)).len() <= usize::MAX,
    ensures
        crate::pprof::is_canonical(proto_model(profile, sizes)),
        crate::pprof::decode_profile(encode_profile(proto_model(profile, sizes))) == Ok::<
            ProfileModel,
            crate::wire::DecodeError,
        >(proto_model(profile, sizes)),
{
    lemma_header_strings();
    let (t8, h) = header_strings();
    let sorted = sort_by_load(image_entries(profile.images@, sizes));
    lemma_sort_by_load_sorted(image_entries(profile.images@, sizes));
    vstd::seq_lib::to_multiset_len(sorted);
    vstd::seq_lib::to_multiset_len(image_entries(profile.images@, sizes));
    lemma_mapping_table_canonical(t8, sorted, sorted.len());
    let (t9, mappings) = mapping_table(t8, sorted, sorted.len());
    let keys = LabelKeys { thread_id: h[4], thread_name: h[5], timestamp: h[6], nanoseconds: h[7] };
    assert(h[4] != 0 && h[5] != 0 && h[6] != 0);
    let st0 = ProtoState {
        strings: t9,
        functions: Seq::empty(),
        locations: Seq::empty(),
        ids: Map::empty(),
        samples: Seq::empty(),
    };
    lemma_fold_canonical(st0, profile.frames@, profile.threads@, sorted, keys, profile.samples@);
    let m = proto_model(profile, sizes);
    assert(h[0] != 0);
    assert forall|i: int| 0 <= i < m.mappings.len() implies !crate::pprof::mapping_is_blank(#[trigger] m.mappings[i]) by {
        assert(m.mappings[i].id != 0);
    }
    assert forall|i: int, j: int|
        0 <= i < m.locations.len() && 0 <= j < m.locations[i].lines.len() implies !crate::pprof::line_is_blank(
            #[trigger] m.locations[i].lines[j],
        ) by {}
    assert(crate::pprof::is_canonical(m));
    crate::roundtrip::lemma_profile_roundtrip(m);
}

// ---------------------------------------------------------------------------
// Building the mapping table
// ---------------------------------------------------------------------------

/// The entries of the mapping table as values.
pub open spec fn entry_views(v: Seq<(u64, String, Option<u64>)>) -> Seq<(u64, Seq<char>, Option<u64>)> {
    v.map_values(|e: (u64, String, Option<u64>)| (e.0, e.1@, e.2))
}

/// Inserting at the first entry that loads above `x` is `insert_by_load`.
proof fn lemma_insert_by_load_at(s: Seq<(u64, Seq<char>, Option<u64>)>, x: (u64, Seq<char>, Option<u64>), p: int)
    requires
        0 <= p <= s.len(),
        forall|i: int| 0 <= i < p ==> s[i].0 <= x.0,
        p < s.len() ==> s[p].0 > x.0,
    ensures
        insert_by_load(s, x) == s.take(p).push(x) + s.skip(p),
    decreases p,
{
    if p == 0 {
        assert(s.take(0).push(x) + s.skip(0) =~= if s.len() == 0 { seq![x] } else { seq![x] + s });
    } else {
        let t = s.drop_first();
        assert forall|i: int| 0 <= i < p - 1 implies t[i].0 <= x.0 by {
            assert(t[i] == s[i + 1]);
        }
        lemma_insert_by_load_at(t, x, p - 1);
        assert(seq![s[0]] + (t.take(p - 1).push(x) + t.skip(p - 1)) =~= s.take(p).push(x) + s.skip(p));
    }
}

/// The images with their file sizes, sorted by load address; images that
/// load at the same address keep their order.
fn sorted_image_entries(images: &Vec<LoadedImage>, sizes: &Vec<Option<u64>>) -> (r: Vec<(u64, String, Option<u64>)>)
    ensures
        entry_views(r@) == sort_by_load(image_entries(images@, sizes@)),
{
    let ghost all = image_entries(images@, sizes@);
    let mut out: Vec<(u64, String, Option<u64>)> = Vec::new();
    let mut i: usize = 0;
    while i < images.len()
        invariant
            all == image_entries(images@, sizes@),
            i <= images@.len(),
            entry_views(out@) == sort_by_load(all.take(i as int)),
        decreases images@.len() - i,
    {
        let size = if i < sizes.len() {
            sizes[i]
        } else {
            None
        };
        let x = (images[i].load_address, images[i].path.clone(), size);
        let ghost xv = (x.0, x.1@, x.2);
        let ghost s = entry_views(out@);
        let mut p: usize = 0;
        while p < out.len() && out[p].0 <= x.0
            invariant
                s == entry_views(out@),
                xv == (x.0, x.1@, x.2),
                p <= out@.len(),
                forall|k: int| 0 <= k < p ==> s[k].0 <= xv.0,
            decreases out@.len() - p,
        {
            proof {
                assert(s[p as int].0 == out@[p as int].0);
            }
            p = p + 1;
        }
        proof {
            if p < out@.len() {
                assert(s[p as int].0 == out@[p as int].0);
            }
            lemma_insert_by_load_at(s, xv, p as int);
            assert(all.take(i + 1).drop_last() =~= all.take(i as int));
            assert(all.take(i + 1).last() == xv);
        }
        out.insert(p, x);
        proof {
            assert(entry_views(out@) =~= s.take(p as int).push(xv) + s.skip(p as int));
        }
        i = i + 1;
    }
    proof {
        assert(all.take(i as int) =~= all);
    }
    out
}

/// The mappings of the sorted images, their file names interned in order.
fn mapping_entries(strings: &mut StringTable, sorted: &Vec<(u64, String, Option<u64>)>) -> (r: Vec<Mapping>)
    ensures
        (final(strings).view(), r@) == mapping_table(old(strings).view(), entry_views(sorted@), sorted@.len()),
{
    let ghost sv = entry_views(sorted@);
    let ghost t0 = strings.view();
    let mut out: Vec<Mapping> = Vec::new();
    let mut k: usize = 0;
    while k < sorted.len()
        invariant
            sv == entry_views(sorted@),
            k <= sorted@.len(),
            (strings.view(), out@) == mapping_table(t0, sv, k as nat),
        decreases sorted@.len() - k,
    {
        let filename = strings.intern(sorted[k].1.as_str());
        let load = sorted[k].0;
        let limit = if k + 1 < sorted.len() {
            sorted[k + 1].0
        } else {
            let extent: u64 = match sorted[k].2 {
                Some(size) => size,
                None => 1,
            };
            load.saturating_add(extent)
        };
        let m = Mapping {
            id: k as u64 + 1,
            memory_start: load,
            memory_limit: limit,
            file_offset: 0,
            filename,
            build_id: 0,
            has_functions: false,
            has_filenames: false,
            has_line_numbers: false,
            has_inline_frames: false,
        };
        proof {
            assert(sv[k as int] == (sorted@[k as int].0, sorted@[k as int].1@, sorted@[k as int].2));
            if k + 1 < sorted@.len() {
                assert(sv[k + 1].0 == sorted@[k + 1].0);
            }
            assert(m == mapping_of(sv, k as int, filename));
        }
        out.push(m);
        k = k + 1;
    }
    out
}

// ---------------------------------------------------------------------------
// Building functions, locations and samples
// ---------------------------------------------------------------------------

/// Counts the sorted images that load at or below `addr`.
fn count_loaded_at_or_below(sorted: &Vec<(u64, String, Option<u64>)>, addr: u64) -> (r: u64)
    ensures
        r == loaded_at_or_below(entry_views(sorted@), addr),
{
    let ghost sv = entry_views(sorted@);
    let mut count: usize = 0;
    let mut j: usize = 0;
    while j < sorted.len()
        invariant
            sv == entry_views(sorted@),
            j <= sorted@.len(),
            count <= j,
            count == loaded_at_or_below(sv.take(j as int), addr),
        decreases sorted@.len() - j,
    {
        proof {
            assert(sv.take(j + 1).drop_last() =~= sv.take(j as int));
            assert(sv.take(j + 1).last().0 == sorted@[j as int].0);
        }
        if sorted[j].0 <= addr {
            count = count + 1;
        }
        j = j + 1;
    }
    proof {
        assert(sv.take(j as int) =~= sv);
    }
    count as u64
}

/// The parts of the profile that the walk over the samples fills in.
struct ProtoBuilder {
    strings: StringTable,
    functions: Vec<Function>,
    locations: Vec<Location>,
    ids: HashMap<u64, u64>,
    samples: Vec<Sample>,
}

impl ProtoBuilder {
    spec fn view(&self) -> ProtoState {
        ProtoState {
            strings: self.strings.view(),
            functions: self.functions@,
            locations: location_views(self.locations@),
            ids: self.ids@,
            samples: sample_views(self.samples@),
        }
    }

    /// `add_frame` on the builder.
    #[verifier::spinoff_prover]
    #[verifier::rlimit(40)]
    fn add_frame(
        &mut self,
        frames: &HashMap<u64, StackFrame>,
        sorted: &Vec<(u64, String, Option<u64>)>,
        addr: u64,
    ) -> (r: Option<u64>)
        ensures
            final(self).view() == add_frame(old(self).view(), frames@, entry_views(sorted@), addr).0,
            r == add_frame(old(self).view(), frames@, entry_views(sorted@), addr).1,
    {
        match frames.get(&addr) {
            None => None,
            Some(frame) => match self.ids.get(&addr) {
                Some(id) => Some(*id),
                None => {
                    let ghost st = self.view();
                    let id = (self.locations.len() as u64).wrapping_add(1);
                    let name = self.strings.intern(frame.function.as_str());
                    let file = self.strings.intern(frame.file.as_str());
                    self.functions.push(Function { id, name, system_name: name, filename: file, start_line: 0 });
                    let mapping_id = count_loaded_at_or_below(sorted, addr);
                    let line = Line { function_id: id, line: frame.line as i64, column: 0 };
                    self.locations.push(
                        Location { id, mapping_id, address: addr, lines: vec![line], is_folded: false },
                    );
                    self.ids.insert(addr, id);
                    proof {
                        assert(location_views(self.locations@) =~= st.locations.push(self.locations@.last()@));
                        assert(self.locations@.last()@.lines =~= seq![line]);
                        assert(self.view() =~= add_frame(st, frames@, entry_views(sorted@), addr).0);
                    }
                    Some(id)
                },
            },
        }
    }

    /// `stack_locations` on the builder.
    fn add_stack(
        &mut self,
        frames: &HashMap<u64, StackFrame>,
        sorted: &Vec<(u64, String, Option<u64>)>,
        stack: &Vec<u64>,
    ) -> (r: Vec<u64>)
        ensures
            final(self).view() == stack_locations(old(self).view(), frames@, entry_views(sorted@), stack@).0,
            r@ == stack_locations(old(self).view(), frames@, entry_views(sorted@), stack@).1,
    {
        let ghost st0 = self.view();
        let ghost sv = entry_views(sorted@);
        let mut ids: Vec<u64> = Vec::new();
        let mut j: usize = 0;
        while j < stack.len()
            invariant
                st0 == old(self).view(),
                sv == entry_views(sorted@),
                j <= stack@.len(),
                self.view() == stack_locations(st0, frames@, sv, stack@.take(j as int)).0,
                ids@ == stack_locations(st0, frames@, sv, stack@.take(j as int)).1,
            decreases stack@.len() - j,
        {
            proof {
                assert(stack@.take(j + 1).drop_last() =~= stack@.take(j as int));
                assert(stack@.take(j + 1).last() == stack@[j as int]);
            }
            let found = self.add_frame(frames, sorted, stack[j]);
            match found {
                Some(id) => ids.push(id),
                None => {},
            }
            j = j + 1;
        }
        proof {
            assert(stack@.take(j as int) =~= stack@);
        }
        ids
    }

    /// `sample_step` on the builder.
    fn add_sample(
        &mut self,
        profile: &SymbolicatedProfile,
        sorted: &Vec<(u64, String, Option<u64>)>,
        keys: LabelKeys,
        sample: &crate::symbolicated::Sample,
    )
        ensures
            final(self).view() == sample_step(
                old(self).view(),
                profile.frames@,
                profile.threads@,
                entry_views(sorted@),
                keys,
                *sample,
            ),
    {
        let ghost st1 = stack_locations(self.view(), profile.frames@, entry_views(sorted@), sample.stack@).0;
        let location_ids = self.add_stack(&profile.frames, sorted, &sample.stack);
        if location_ids.len() == 0 {
            return;
        }
        let ghost name = thread_name_of(profile.threads@, sample.thread_id);
        let mut labels: Vec<Label> = Vec::new();
        labels.push(
            Label { key: keys.thread_id, str_index: 0, num: #[verifier::truncate] (sample.thread_id as i64), num_unit: 0 },
        );
        let mut name_index: u64 = 0;
        match profile.threads.get(&sample.thread_id) {
            Some(thread_name) => {
                if !thread_name.as_str().is_empty() {
                    name_index = self.strings.intern(thread_name.as_str());
                    labels.push(Label { key: keys.thread_name, str_index: name_index, num: 0, num_unit: 0 });
                }
            },
            None => {},
        }
        match sample.timestamp_nanos {
            Some(t) => {
                let num: i64 = if t > 0x7fff_ffff_ffff_ffff {
                    i64::MAX
                } else {
                    t as i64
                };
                labels.push(Label { key: keys.timestamp, str_index: 0, num, num_unit: keys.nanoseconds });
            },
            None => {},
        }
        let values = vec![#[verifier::truncate] (sample.count as i64)];
        let ghost before = self.view();
        self.samples.push(Sample { location_ids, values, labels });
        proof {
            assert(labels@ =~= sample_labels(keys, *sample, name, name_index));
            assert(values@ =~= seq![sample.count as i64]);
            assert(sample_views(self.samples@) =~= before.samples.push(self.samples@.last()@));
            assert(self.view() =~= sample_step(
                old(self).view(),
                profile.frames@,
                profile.threads@,
                entry_views(sorted@),
                keys,
                *sample,
            ));
        }
    }
}

// ---------------------------------------------------------------------------
// The encoder
// ---------------------------------------------------------------------------

/// The raw (not gzip-compressed) pprof protobuf of `profile`, where
/// `image_sizes[i]` is the size of the file of `profile.images[i]` where
/// that is known (the last mapping by load address ends there).
pub fn build_proto(profile: &SymbolicatedProfile, image_sizes: &Vec<Option<u64>>) -> (r: Bytes)
    requires
        profile.freq_hz > 0,
    ensures
        bytes_content(r) == encode_profile(proto_model(*profile, image_sizes@)),
{
    let mut strings = StringTable::new();
    let s_samples = strings.intern("samples");
    let s_count = strings.intern("count");
    let s_cpu = strings.intern("cpu");
    let s_nanoseconds = strings.intern("nanoseconds");
    let s_thread_id = strings.intern("thread_id");
    let s_thread_name = strings.intern("thread_name");
    let s_timestamp = strings.intern("pprofessor::timestamp");
    let s_nanoseconds_label = strings.intern("nanoseconds");
    let ghost h = seq![
        s_samples,
        s_count,
        s_cpu,
        s_nanoseconds,
        s_thread_id,
        s_thread_name,
        s_timestamp,
        s_nanoseconds_label,
    ];
    proof {
        assert((strings.view(), h) == header_strings());
    }

    let sorted = sorted_image_entries(&profile.images, image_sizes);
    let mappings = mapping_entries(&mut strings, &sorted);
    let keys = LabelKeys {
        thread_id: s_thread_id,
        thread_name: s_thread_name,
        timestamp: s_timestamp,
        nanoseconds: s_nanoseconds_label,
    };
    let mut b = ProtoBuilder {
        strings,
        functions: Vec::new(),
        locations: Vec::new(),
        ids: HashMap::new(),
        samples: Vec::new(),
    };
    let ghost st0 = b.view();
    let ghost sv = entry_views(sorted@);
    proof {
        assert(location_views(b.locations@) =~= Seq::<LocationModel>::empty());
        assert(sample_views(b.samples@) =~= Seq::<SampleModel>::empty());
        assert(st0 =~= ProtoState {
            strings: st0.strings,
            functions: Seq::empty(),
            locations: Seq::empty(),
            ids: Map::empty(),
            samples: Seq::empty(),
        });
    }
    let mut i: usize = 0;
    while i < profile.samples.len()
        invariant
            sv == entry_views(sorted@),
            i <= profile.samples@.len(),
            b.view() == samples_fold(st0, profile.frames@, profile.threads@, sv, keys, profile.samples@.take(i as int)),
        decreases profile.samples@.len() - i,
    {
        proof {
            assert(profile.samples@.take(i + 1).drop_last() =~= profile.samples@.take(i as int));
            assert(profile.samples@.take(i + 1).last() == profile.samples@[i as int]);
        }
        b.add_sample(profile, &sorted, keys, &profile.samples[i]);
        i = i + 1;
    }
    proof {
        assert(profile.samples@.take(i as int) =~= profile.samples@);
    }
    let mut value_types: Vec<ValueType> = Vec::new();
    value_types.push(ValueType { type_: s_samples, unit: s_count });
    let enc = PprofProfile {
        strings: b.strings,
        value_types,
        samples: b.samples,
        mappings,
        locations: b.locations,
        functions: b.functions,
        time_nanos: #[verifier::truncate] (profile.start_time_unix_nanos as i64),
        duration_nanos: #[verifier::truncate] (profile.duration_nanos as i64),
        period_type: ValueType { type_: s_cpu, unit: s_nanoseconds },
        period: 1_000_000_000i64 / (profile.freq_hz as i64),
        drop_frames: 0,
        keep_frames: 0,
        comments: Vec::new(),
        default_sample_type: 0,
    };
    proof {
        assert(enc@ =~= proto_model(*profile, image_sizes@));
    }
    bytes_from_vec(enc.encode())
}

impl SymbolicatedProfile {
    /// The raw (not gzip-compressed) pprof protobuf of this profile; see
    /// `build_proto`. To write a `.pb.gz` file, gzip the result.
    pub fn to_pprof(&self, image_sizes: &Vec<Option<u64>>) -> (r: Bytes)
        requires
            self.freq_hz > 0,
        ensures
            bytes_content(r) == encode_profile(proto_model(*self, image_sizes@)),
    {
        build_proto(self, image_sizes)
    }
}

} // verus!
