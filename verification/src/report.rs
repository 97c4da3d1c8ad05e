//! Hotspot analysis of a pprof profile: which functions and which complete
//! call stacks carry the selected sample type's cost.

use std::io::Read;

use vstd::prelude::*;
use vstd::relations::sorted_by;

use crate::pprof::{
    decode_profile, Function, Line, LocationModel, PprofProfile, ProfileModel, SampleModel,
};
use crate::sorting::{lemma_map_multiset, sort_by_rank, total_preorder};
use crate::text::{
    chars_lt, chars_order, compare_str, hex16, hex_address, lemma_chars_order, lemma_lex_step,
    lemma_lex_strict_total, lex_lt, parse_unsigned_of, strict_total,
};
use crate::wire::DecodeError;

pub mod call_tree;
pub mod totals;

verus! {

/// Flat and cumulative cost attributed to one function.
#[derive(Debug, Clone, PartialEq, Eq)]
pub struct FrameStat {
    pub function: String,
    pub file: String,
    pub line: i64,
    pub flat: i64,
    pub cumulative: i64,
}

/// One frame in a ranked stack, ordered from root to leaf.
#[derive(Debug, Clone, PartialEq, Eq)]
pub struct ReportFrame {
    pub function: String,
    pub file: String,
    pub line: i64,
}

/// Cost attributed to one complete call stack.
#[derive(Debug, Clone, PartialEq, Eq)]
pub struct StackStat {
    pub frames: Vec<ReportFrame>,
    pub value: i64,
}

/// A focused report view.
#[derive(Debug, Clone, Copy, PartialEq, Eq)]
pub enum ReportView {
    /// Metadata, observations, top frames, and top stacks.
    Summary,
    /// Functions ranked by self/flat cost.
    TopFrames,
    /// Functions ranked by cumulative cost.
    TopCumulative,
    /// Complete call stacks ranked by cost.
    TopStacks,
    /// A root-to-leaf hot call tree.
    CallTree,
}

/// Output syntax for a rendered report.
#[derive(Debug, Clone, Copy, PartialEq, Eq)]
pub enum ReportFormat {
    Terminal,
    Markdown,
}

/// Why a profile could not be analyzed.
#[derive(Debug, Clone, PartialEq, Eq)]
pub enum ReportError {
    /// The profile declares no sample types.
    NoSampleTypes,
    /// A numeric sample type names no sample type of the profile.
    IndexOutOfRange { index: usize, len: usize },
    /// No sample type has the requested name.
    UnknownSampleType { requested: String, available: Vec<String> },
    /// The data starts like gzip but does not decompress.
    Gzip,
    /// The (decompressed) data is not a pprof protobuf.
    Decode(DecodeError),
}

/// What identifies a frame across samples: its function, or the address of
/// a location without line information.
#[derive(Debug, Clone, Copy, PartialEq, Eq, Structural, Hash)]
pub enum FrameIdentity {
    Function(u64),
    Address(u64),
}

/// A frame of a sample's stack, resolved through the profile's tables.
#[derive(Debug)]
pub struct ResolvedFrame {
    pub identity: FrameIdentity,
    pub function: String,
    pub file: String,
    pub line: i64,
}

/// A resolved frame as a mathematical value.
pub struct FrameModel {
    pub identity: FrameIdentity,
    pub function: Seq<char>,
    pub file: Seq<char>,
    pub line: i64,
}

/// A frame statistic as a mathematical value.
pub struct FrameStatModel {
    pub function: Seq<char>,
    pub file: Seq<char>,
    pub line: i64,
    pub flat: i64,
    pub cumulative: i64,
}

/// A ranked stack as a mathematical value.
pub struct StackStatModel {
    pub frames: Seq<(Seq<char>, Seq<char>, i64)>,
    pub value: i64,
}

impl ResolvedFrame {
    pub open spec fn view(&self) -> FrameModel {
        FrameModel {
            identity: self.identity,
            function: self.function@,
            file: self.file@,
            line: self.line,
        }
    }

    /// A statistic for this frame with no cost yet.
    pub fn stat(&self) -> (r: FrameStat)
        ensures
            r@ == stat_of(self@),
    {
        FrameStat {
            function: self.function.clone(),
            file: self.file.clone(),
            line: self.line,
            flat: 0,
            cumulative: 0,
        }
    }

    /// This frame as an element of a ranked stack.
    pub fn report_frame(&self) -> (r: ReportFrame)
        ensures
            r@ == report_frame_of(self@),
    {
        ReportFrame { function: self.function.clone(), file: self.file.clone(), line: self.line }
    }
}

impl FrameStat {
    pub open spec fn view(&self) -> FrameStatModel {
        FrameStatModel {
            function: self.function@,
            file: self.file@,
            line: self.line,
            flat: self.flat,
            cumulative: self.cumulative,
        }
    }
}

impl ReportFrame {
    pub open spec fn view(&self) -> (Seq<char>, Seq<char>, i64) {
        (self.function@, self.file@, self.line)
    }
}

pub open spec fn rframe_view_fn() -> spec_fn(ReportFrame) -> (Seq<char>, Seq<char>, i64) {
    |f: ReportFrame| f@
}

impl StackStat {
    pub open spec fn view(&self) -> StackStatModel {
        StackStatModel {
            frames: self.frames@.map_values(rframe_view_fn()),
            value: self.value,
        }
    }
}

/// A statistic for frame `f` with no cost yet.
pub open spec fn stat_of(f: FrameModel) -> FrameStatModel {
    FrameStatModel { function: f.function, file: f.file, line: f.line, flat: 0, cumulative: 0 }
}

/// Frame `f` as an element of a ranked stack.
pub open spec fn report_frame_of(f: FrameModel) -> (Seq<char>, Seq<char>, i64) {
    (f.function, f.file, f.line)
}

/// The string at `index` of the string table, or the empty string past its end.
pub open spec fn string_at(strings: Seq<Seq<char>>, index: u64) -> Seq<char> {
    if index < strings.len() {
        strings[index as int]
    } else {
        Seq::empty()
    }
}

/// The string at `index` of the profile's string table, or `""` past its end.
pub fn profile_string(profile: &PprofProfile, index: u64) -> (r: &str)
    ensures
        r@ == string_at(profile@.strings, index),
{
    if index < profile.strings.strings.len() as u64 {
        profile.strings.strings[index as usize].as_str()
    } else {
        proof {
            reveal_strlit("");
        }
        ""
    }
}

/// The last location with id `id` (later entries replace earlier ones).
pub open spec fn location_by_id(locations: Seq<LocationModel>, id: u64) -> Option<LocationModel>
    decreases locations.len(),
{
    if locations.len() == 0 {
        None
    } else if locations.last().id == id {
        Some(locations.last())
    } else {
        location_by_id(locations.drop_last(), id)
    }
}

/// The last function with id `id` (later entries replace earlier ones).
pub open spec fn function_by_id(functions: Seq<Function>, id: u64) -> Option<Function>
    decreases functions.len(),
{
    if functions.len() == 0 {
        None
    } else if functions.last().id == id {
        Some(functions.last())
    } else {
        function_by_id(functions.drop_last(), id)
    }
}

/// The frames of a location's lines, outermost caller first (the lines are
/// stored innermost first); lines naming an unknown function are dropped.
pub open spec fn line_frames(m: ProfileModel, lines: Seq<Line>) -> Seq<FrameModel>
    decreases lines.len(),
{
    if lines.len() == 0 {
        Seq::empty()
    } else {
        let here = match function_by_id(m.functions, lines.last().function_id) {
            Some(f) => seq![
                FrameModel {
                    identity: FrameIdentity::Function(f.id),
                    function: string_at(m.strings, f.name),
                    file: string_at(m.strings, f.filename),
                    line: lines.last().line,
                },
            ],
            None => Seq::empty(),
        };
        here + line_frames(m, lines.drop_last())
    }
}

/// The frames of one location: one frame per line, or, without line
/// information, one frame named by the location's address.
pub open spec fn location_frames(m: ProfileModel, loc: LocationModel) -> Seq<FrameModel> {
    if loc.lines.len() == 0 {
        seq![
            FrameModel {
                identity: FrameIdentity::Address(loc.address),
                function: hex16(loc.address),
                file: Seq::empty(),
                line: 0,
            },
        ]
    } else {
        line_frames(m, loc.lines)
    }
}

/// The frames of a sample's stack from root to leaf (location ids are stored
/// leaf first); unknown location ids are dropped.
pub open spec fn stack_frames(m: ProfileModel, ids: Seq<u64>) -> Seq<FrameModel>
    decreases ids.len(),
{
    if ids.len() == 0 {
        Seq::empty()
    } else {
        let here = match location_by_id(m.locations, ids.last()) {
            Some(loc) => location_frames(m, loc),
            None => Seq::empty(),
        };
        here + stack_frames(m, ids.drop_last())
    }
}

fn find_location(profile: &PprofProfile, id: u64) -> (r: Option<usize>)
    ensures
        match location_by_id(profile@.locations, id) {
            Some(loc) => r matches Some(i) && i < profile.locations@.len() && profile.locations@[i as int]@ == loc,
            None => r is None,
        },
{
    let mut i: usize = profile.locations.len();
    assert(profile@.locations.take(i as int) =~= profile@.locations);
    while i > 0
        invariant
            i <= profile.locations@.len(),
            location_by_id(profile@.locations, id) == location_by_id(profile@.locations.take(i as int), id),
        decreases i,
    {
        let ghost t = profile@.locations.take(i as int);
        proof {
            assert(t.drop_last() =~= profile@.locations.take(i - 1));
            assert(t.last() == profile.locations@[i - 1]@);
        }
        if profile.locations[i - 1].id == id {
            return Some(i - 1);
        }
        i = i - 1;
    }
    None
}

fn find_function(profile: &PprofProfile, id: u64) -> (r: Option<usize>)
    ensures
        match function_by_id(profile@.functions, id) {
            Some(f) => r matches Some(i) && i < profile.functions@.len() && profile.functions@[i as int] == f,
            None => r is None,
        },
{
    let mut i: usize = profile.functions.len();
    assert(profile@.functions.take(i as int) =~= profile@.functions);
    while i > 0
        invariant
            i <= profile.functions@.len(),
            function_by_id(profile@.functions, id) == function_by_id(profile@.functions.take(i as int), id),
        decreases i,
    {
        let ghost t = profile@.functions.take(i as int);
        proof {
            assert(t.drop_last() =~= profile@.functions.take(i - 1));
        }
        if profile.functions[i - 1].id == id {
            return Some(i - 1);
        }
        i = i - 1;
    }
    None
}

/// `a` followed by `b`.
fn join_frames(a: Vec<ResolvedFrame>, b: Vec<ResolvedFrame>) -> (r: Vec<ResolvedFrame>)
    ensures
        r@ == a@ + b@,
{
    let mut a = a;
    let mut b = b;
    a.append(&mut b);
    a
}

pub open spec fn frame_views(v: Seq<ResolvedFrame>) -> Seq<FrameModel> {
    v.map_values(|f: ResolvedFrame| f@)
}

fn location_frames_of(profile: &PprofProfile, index: usize) -> (r: Vec<ResolvedFrame>)
    requires
        index < profile.locations@.len(),
    ensures
        frame_views(r@) == location_frames(profile@, profile.locations@[index as int]@),
{
    let location = &profile.locations[index];
    let mut out: Vec<ResolvedFrame> = Vec::new();
    if location.lines.len() == 0 {
        out.push(
            ResolvedFrame {
                identity: FrameIdentity::Address(location.address),
                function: hex_address(location.address),
                file: String::new(),
                line: 0,
            },
        );
        assert(frame_views(out@) =~= location_frames(profile@, location@));
        return out;
    }
    let ghost lines = location.lines@;
    let mut k: usize = 0;
    while k < location.lines.len()
        invariant
            lines == location.lines@,
            location == &profile.locations@[index as int],
            k <= lines.len(),
            frame_views(out@) == line_frames(profile@, lines.take(k as int)),
        decreases lines.len() - k,
    {
        let line = location.lines[k];
        let mut here: Vec<ResolvedFrame> = Vec::new();
        match find_function(profile, line.function_id) {
            Some(j) => {
                let f = profile.functions[j];
                here.push(
                    ResolvedFrame {
                        identity: FrameIdentity::Function(f.id),
                        function: profile_string(profile, f.name).to_owned(),
                        file: profile_string(profile, f.filename).to_owned(),
                        line: line.line,
                    },
                );
            },
            None => {},
        }
        let ghost old_out = out@;
        out = join_frames(here, out);
        proof {
            assert(lines.take(k + 1).drop_last() =~= lines.take(k as int));
            assert(lines.take(k + 1).last() == line);
            assert(frame_views(out@) =~= frame_views(here@) + frame_views(old_out));
        }
        k = k + 1;
    }
    proof {
        assert(lines.take(k as int) =~= lines);
    }
    out
}

/// The frames of `sample`'s stack from root to leaf, each location expanded
/// into its lines (outermost caller first).
pub fn resolve_stack(profile: &PprofProfile, sample: &crate::pprof::Sample) -> (r: Vec<ResolvedFrame>)
    ensures
        frame_views(r@) == stack_frames(profile@, sample.location_ids@),
{
    let ghost ids = sample.location_ids@;
    let mut out: Vec<ResolvedFrame> = Vec::new();
    let mut k: usize = 0;
    while k < sample.location_ids.len()
        invariant
            ids == sample.location_ids@,
            k <= ids.len(),
            frame_views(out@) == stack_frames(profile@, ids.take(k as int)),
        decreases ids.len() - k,
    {
        let id = sample.location_ids[k];
        let here = match find_location(profile, id) {
            Some(i) => location_frames_of(profile, i),
            None => Vec::new(),
        };
        let ghost old_out = out@;
        out = join_frames(here, out);
        proof {
            assert(ids.take(k + 1).drop_last() =~= ids.take(k as int));
            assert(ids.take(k + 1).last() == id);
            assert(frame_views(out@) =~= frame_views(here@) + frame_views(old_out));
            if location_by_id(profile@.locations, id) is None {
                assert(frame_views(here@) =~= Seq::<FrameModel>::empty());
            }
        }
        k = k + 1;
    }
    proof {
        assert(ids.take(k as int) =~= ids);
    }
    out
}


// ---------------------------------------------------------------------------
// Choosing the sample type
// ---------------------------------------------------------------------------

/// Why no sample type could be chosen.
pub enum SampleIndexFailure {
    NoSampleTypes,
    IndexOutOfRange(nat),
    Unknown,
}

/// The names of the profile's sample types, in order.
pub open spec fn type_names(m: ProfileModel) -> Seq<Seq<char>> {
    m.value_types.map_values(|v: crate::pprof::ValueType| string_at(m.strings, v.type_))
}

/// The first sample type named `name`.
pub open spec fn first_named(names: Seq<Seq<char>>, name: Seq<char>) -> Option<nat>
    decreases names.len(),
{
    if names.len() == 0 {
        None
    } else if names[0] == name {
        Some(0)
    } else {
        match first_named(names.drop_first(), name) {
            Some(i) => Some(i + 1),
            None => None,
        }
    }
}

/// The sample type a report analyzes: the requested one (by zero-based
/// index or by name), else the profile's default sample type, else the last.
pub open spec fn sample_index_of(m: ProfileModel, requested: Option<Seq<char>>) -> Result<
    nat,
    SampleIndexFailure,
> {
    let len = m.value_types.len();
    if len == 0 {
        Err(SampleIndexFailure::NoSampleTypes)
    } else {
        match requested {
            Some(r) => match parse_unsigned_of(r, 10, usize::MAX as nat) {
                Some(i) => if i < len {
                    Ok(i)
                } else {
                    Err(SampleIndexFailure::IndexOutOfRange(i))
                },
                None => match first_named(type_names(m), r) {
                    Some(i) => Ok(i),
                    None => Err(SampleIndexFailure::Unknown),
                },
            },
            None => if m.default_sample_type != 0 {
                match first_named(type_names(m), string_at(m.strings, m.default_sample_type)) {
                    Some(i) => Ok(i),
                    None => Ok((len - 1) as nat),
                }
            } else {
                Ok((len - 1) as nat)
            },
        }
    }
}

proof fn lemma_first_named(names: Seq<Seq<char>>, name: Seq<char>, i: int)
    requires
        0 <= i <= names.len(),
        forall|j: int| 0 <= j < i ==> names[j] != name,
    ensures
        i < names.len() && names[i] == name ==> first_named(names, name) == Some(i as nat),
        i == names.len() ==> first_named(names, name) is None,
    decreases i,
{
    if i > 0 {
        lemma_first_named(names.drop_first(), name, i - 1);
    } else if names.len() > 0 {
    }
}

fn position_named(profile: &PprofProfile, name: &str) -> (r: Option<usize>)
    ensures
        match first_named(type_names(profile@), name@) {
            Some(i) => r == Some(i as usize),
            None => r is None,
        },
{
    let ghost names = type_names(profile@);
    let mut i: usize = 0;
    while i < profile.value_types.len()
        invariant
            names == type_names(profile@),
            i <= names.len(),
            forall|j: int| 0 <= j < i ==> names[j] != name@,
        decreases names.len() - i,
    {
        let candidate = profile_string(profile, profile.value_types[i].type_);
        if crate::text::compare_str(candidate, name) == 0 {
            proof {
                lemma_first_named(names, name@, i as int);
            }
            return Some(i);
        }
        i = i + 1;
    }
    proof {
        lemma_first_named(names, name@, i as int);
    }
    None
}

/// The contents of a list of strings.
pub open spec fn string_views(v: Seq<String>) -> Seq<Seq<char>> {
    v.map_values(|s: String| s@)
}

fn all_type_names(profile: &PprofProfile) -> (r: Vec<String>)
    ensures
        string_views(r@) == type_names(profile@),
{
    let mut out: Vec<String> = Vec::new();
    let mut i: usize = 0;
    while i < profile.value_types.len()
        invariant
            i <= profile.value_types@.len(),
            string_views(out@) == type_names(profile@).take(i as int),
        decreases profile.value_types@.len() - i,
    {
        let ghost before = out@;
        out.push(profile_string(profile, profile.value_types[i].type_).to_owned());
        proof {
            assert(string_views(out@) =~= string_views(before).push(out@[i as int]@));
        }
        i = i + 1;
        assert(string_views(out@) =~= type_names(profile@).take(i as int));
    }
    assert(type_names(profile@).take(i as int) =~= type_names(profile@));
    out
}

/// The index of the sample type to analyze: `requested` names it by
/// zero-based index or by name; without it, the profile's default sample type
/// is used, falling back to the last sample type.
pub fn sample_index(profile: &PprofProfile, requested: Option<&str>) -> (r: Result<usize, ReportError>)
    ensures
        match sample_index_of(
            profile@,
            match requested {
                Some(s) => Some(s@),
                None => None,
            },
        ) {
            Ok(i) => r == Ok::<usize, ReportError>(i as usize),
            Err(SampleIndexFailure::NoSampleTypes) => r == Err::<usize, ReportError>(
                ReportError::NoSampleTypes,
            ),
            Err(SampleIndexFailure::IndexOutOfRange(i)) => r == Err::<usize, ReportError>(
                ReportError::IndexOutOfRange { index: i as usize, len: profile.value_types@.len() as usize },
            ),
            Err(SampleIndexFailure::Unknown) => r matches Err(ReportError::UnknownSampleType { requested: q, available }) && Some(q@) == (match requested {
                Some(s) => Some(s@),
                None => None,
            }) && string_views(available@) == type_names(profile@),
        },
{
    let len = profile.value_types.len();
    if len == 0 {
        return Err(ReportError::NoSampleTypes);
    }
    match requested {
        Some(name) => {
            match crate::text::parse_unsigned(name, 10, usize::MAX as u64) {
                Some(index) => {
                    if index < len as u64 {
                        return Ok(index as usize);
                    }
                    return Err(ReportError::IndexOutOfRange { index: index as usize, len });
                },
                None => {},
            }
            match position_named(profile, name) {
                Some(i) => Ok(i),
                None => Err(
                    ReportError::UnknownSampleType {
                        requested: name.to_owned(),
                        available: all_type_names(profile),
                    },
                ),
            }
        },
        None => {
            if profile.default_sample_type != 0 {
                let wanted = profile_string(profile, profile.default_sample_type);
                match position_named(profile, wanted) {
                    Some(i) => {
                        return Ok(i);
                    },
                    None => {},
                }
            }
            Ok(len - 1)
        },
    }
}


// ---------------------------------------------------------------------------
// Attributing cost
// ---------------------------------------------------------------------------

/// `a + b`, clamped to the range of `i64`.
pub open spec fn sat_add(a: i64, b: i64) -> i64 {
    if a + b > i64::MAX {
        i64::MAX
    } else if a + b < i64::MIN {
        i64::MIN
    } else {
        (a + b) as i64
    }
}

/// `|a|`, with `i64::MIN` mapped to `i64::MAX`.
pub open spec fn sat_abs(a: i64) -> i64 {
    if a == i64::MIN {
        i64::MAX
    } else if a < 0 {
        (-a) as i64
    } else {
        a
    }
}

/// The first position of key `k`, or `-1`.
pub open spec fn key_index<K, V>(s: Seq<(K, V)>, k: K) -> int
    decreases s.len(),
{
    if s.len() == 0 {
        -1
    } else if s[0].0 == k {
        0
    } else {
        let r = key_index(s.drop_first(), k);
        if r < 0 {
            -1
        } else {
            r + 1
        }
    }
}

proof fn lemma_key_index_found<K, V>(s: Seq<(K, V)>, k: K)
    ensures
        key_index(s, k) >= 0 ==> key_index(s, k) < s.len() && s[key_index(s, k)].0 == k,
        key_index(s, k) >= -1,
    decreases s.len(),
{
    if s.len() > 0 {
        lemma_key_index_found(s.drop_first(), k);
    }
}

proof fn lemma_first_named_found(names: Seq<Seq<char>>, name: Seq<char>)
    ensures
        first_named(names, name) matches Some(i) ==> i < names.len() && names[i as int] == name,
    decreases names.len(),
{
    if names.len() > 0 {
        lemma_first_named_found(names.drop_first(), name);
    }
}

proof fn lemma_key_index<K, V>(s: Seq<(K, V)>, k: K, i: int)
    requires
        0 <= i <= s.len(),
        forall|j: int| 0 <= j < i ==> #[trigger] s[j].0 != k,
    ensures
        i < s.len() && s[i].0 == k ==> key_index(s, k) == i,
        i == s.len() ==> key_index(s, k) == -1,
    decreases i,
{
    if i > 0 {
        lemma_key_index(s.drop_first(), k, i - 1);
    }
}

/// The identities of a list of frames.
pub open spec fn identities(frames: Seq<FrameModel>) -> Seq<FrameIdentity> {
    frames.map_values(|f: FrameModel| f.identity)
}

/// `stats` with `v` added to the flat cost of `f`'s identity (a new, empty
/// statistic for `f` first when the identity is new).
pub open spec fn bump_flat(
    stats: Seq<(FrameIdentity, FrameStatModel)>,
    f: FrameModel,
    v: i64,
) -> Seq<(FrameIdentity, FrameStatModel)> {
    let i = key_index(stats, f.identity);
    if i >= 0 {
        let old = stats[i].1;
        stats.update(
            i,
            (
                f.identity,
                FrameStatModel {
                    function: old.function,
                    file: old.file,
                    line: old.line,
                    flat: sat_add(old.flat, v),
                    cumulative: old.cumulative,
                },
            ),
        )
    } else {
        stats.push(
            (
                f.identity,
                FrameStatModel { function: f.function, file: f.file, line: f.line, flat: v, cumulative: 0 },
            ),
        )
    }
}

/// `stats` with `v` added to the cumulative cost of `f`'s identity.
pub open spec fn bump_cumulative(
    stats: Seq<(FrameIdentity, FrameStatModel)>,
    f: FrameModel,
    v: i64,
) -> Seq<(FrameIdentity, FrameStatModel)> {
    let i = key_index(stats, f.identity);
    if i >= 0 {
        let old = stats[i].1;
        stats.update(
            i,
            (
                f.identity,
                FrameStatModel {
                    function: old.function,
                    file: old.file,
                    line: old.line,
                    flat: old.flat,
                    cumulative: sat_add(old.cumulative, v),
                },
            ),
        )
    } else {
        stats.push(
            (
                f.identity,
                FrameStatModel { function: f.function, file: f.file, line: f.line, flat: 0, cumulative: v },
            ),
        )
    }
}

/// `v` added once to the cumulative cost of every identity on the stack
/// (a recursive function counts once per sample).
pub open spec fn bump_cumulative_all(
    stats: Seq<(FrameIdentity, FrameStatModel)>,
    frames: Seq<FrameModel>,
    v: i64,
) -> Seq<(FrameIdentity, FrameStatModel)>
    decreases frames.len(),
{
    if frames.len() == 0 {
        stats
    } else {
        let before = bump_cumulative_all(stats, frames.drop_last(), v);
        let f = frames.last();
        if identities(frames.drop_last()).contains(f.identity) {
            before
        } else {
            bump_cumulative(before, f, v)
        }
    }
}

/// Running totals while a profile's samples are attributed.
pub struct Tally {
    pub total: i64,
    pub stats: Seq<(FrameIdentity, FrameStatModel)>,
    pub stacks: Seq<(Seq<FrameIdentity>, StackStatModel)>,
}

/// The totals after one more sample of value `v` whose stack is `frames`
/// (root to leaf): the total grows by `|v|`, the stack's cost and the leaf's
/// flat cost by `v`, and the cumulative cost of each function on the stack
/// by `v`.
pub open spec fn tally_sample(t: Tally, frames: Seq<FrameModel>, v: i64) -> Tally {
    let key = identities(frames);
    let i = key_index(t.stacks, key);
    Tally {
        total: sat_add(t.total, sat_abs(v)),
        stacks: if frames.len() == 0 {
            t.stacks
        } else if i >= 0 {
            t.stacks.update(
                i,
                (key, StackStatModel { frames: t.stacks[i].1.frames, value: sat_add(t.stacks[i].1.value, v) }),
            )
        } else {
            t.stacks.push(
                (key, StackStatModel { frames: frames.map_values(|f: FrameModel| report_frame_of(f)), value: v }),
            )
        },
        stats: bump_cumulative_all(
            if frames.len() > 0 {
                bump_flat(t.stats, frames.last(), v)
            } else {
                t.stats
            },
            frames,
            v,
        ),
    }
}

/// The totals over `samples`, each contributing its value of sample type `si`
/// (samples without one are skipped).
pub open spec fn tally_of(m: ProfileModel, si: nat, samples: Seq<SampleModel>) -> Tally
    decreases samples.len(),
{
    if samples.len() == 0 {
        Tally { total: 0, stats: Seq::empty(), stacks: Seq::empty() }
    } else {
        let t = tally_of(m, si, samples.drop_last());
        let s = samples.last();
        if si < s.values.len() {
            tally_sample(t, stack_frames(m, s.location_ids), s.values[si as int])
        } else {
            t
        }
    }
}

pub(crate) fn saturating_abs(a: i64) -> (r: i64)
    ensures
        r == sat_abs(a),
{
    if a == i64::MIN {
        i64::MAX
    } else if a < 0 {
        -a
    } else {
        a
    }
}

pub(crate) fn saturating_add(a: i64, b: i64) -> (r: i64)
    ensures
        r == sat_add(a, b),
{
    if b > 0 && a > i64::MAX - b {
        i64::MAX
    } else if b < 0 && a < i64::MIN - b {
        i64::MIN
    } else {
        a + b
    }
}

pub open spec fn stat_entries(v: Seq<(FrameIdentity, FrameStat)>) -> Seq<(FrameIdentity, FrameStatModel)> {
    v.map_values(|e: (FrameIdentity, FrameStat)| (e.0, e.1@))
}

pub open spec fn stack_entries(v: Seq<(Vec<FrameIdentity>, StackStat)>) -> Seq<(Seq<FrameIdentity>, StackStatModel)> {
    v.map_values(|e: (Vec<FrameIdentity>, StackStat)| (e.0@, e.1@))
}

fn find_stat(stats: &Vec<(FrameIdentity, FrameStat)>, id: FrameIdentity) -> (r: Option<usize>)
    ensures
        match r {
            Some(i) => i < stats@.len() && key_index(stat_entries(stats@), id) == i,
            None => key_index(stat_entries(stats@), id) == -1,
        },
{
    let ghost e = stat_entries(stats@);
    let mut i: usize = 0;
    while i < stats.len()
        invariant
            e == stat_entries(stats@),
            i <= stats@.len(),
            forall|j: int| 0 <= j < i ==> #[trigger] e[j].0 != id,
        decreases stats@.len() - i,
    {
        if stats[i].0 == id {
            proof {
                lemma_key_index(e, id, i as int);
            }
            return Some(i);
        }
        i = i + 1;
    }
    proof {
        lemma_key_index(e, id, i as int);
    }
    None
}

fn same_identities(a: &Vec<FrameIdentity>, b: &Vec<FrameIdentity>) -> (r: bool)
    ensures
        r == (a@ == b@),
{
    if a.len() != b.len() {
        return false;
    }
    let mut i: usize = 0;
    while i < a.len()
        invariant
            a@.len() == b@.len(),
            i <= a@.len(),
            forall|j: int| 0 <= j < i ==> a@[j] == b@[j],
        decreases a@.len() - i,
    {
        if a[i] != b[i] {
            return false;
        }
        i = i + 1;
    }
    assert(a@ =~= b@);
    true
}

fn find_stack(stacks: &Vec<(Vec<FrameIdentity>, StackStat)>, key: &Vec<FrameIdentity>) -> (r: Option<usize>)
    ensures
        match r {
            Some(i) => i < stacks@.len() && key_index(stack_entries(stacks@), key@) == i,
            None => key_index(stack_entries(stacks@), key@) == -1,
        },
{
    let ghost e = stack_entries(stacks@);
    let mut i: usize = 0;
    while i < stacks.len()
        invariant
            e == stack_entries(stacks@),
            i <= stacks@.len(),
            forall|j: int| 0 <= j < i ==> #[trigger] e[j].0 != key@,
        decreases stacks@.len() - i,
    {
        if same_identities(&stacks[i].0, key) {
            proof {
                lemma_key_index(e, key@, i as int);
            }
            return Some(i);
        }
        i = i + 1;
    }
    proof {
        lemma_key_index(e, key@, i as int);
    }
    None
}

fn add_flat(stats: &mut Vec<(FrameIdentity, FrameStat)>, f: &ResolvedFrame, v: i64)
    ensures
        stat_entries(final(stats)@) == bump_flat(stat_entries(old(stats)@), f@, v),
{
    let ghost before = stat_entries(stats@);
    match find_stat(stats, f.identity) {
        Some(i) => {
            let old_stat = &stats[i].1;
            let updated = FrameStat {
                function: old_stat.function.clone(),
                file: old_stat.file.clone(),
                line: old_stat.line,
                flat: saturating_add(old_stat.flat, v),
                cumulative: old_stat.cumulative,
            };
            stats.set(i, (f.identity, updated));
        },
        None => {
            let mut stat = f.stat();
            stat.flat = v;
            stats.push((f.identity, stat));
        },
    }
    assert(stat_entries(stats@) =~= bump_flat(before, f@, v));
}

fn add_cumulative(stats: &mut Vec<(FrameIdentity, FrameStat)>, f: &ResolvedFrame, v: i64)
    ensures
        stat_entries(final(stats)@) == bump_cumulative(stat_entries(old(stats)@), f@, v),
{
    let ghost before = stat_entries(stats@);
    match find_stat(stats, f.identity) {
        Some(i) => {
            let old_stat = &stats[i].1;
            let updated = FrameStat {
                function: old_stat.function.clone(),
                file: old_stat.file.clone(),
                line: old_stat.line,
                flat: old_stat.flat,
                cumulative: saturating_add(old_stat.cumulative, v),
            };
            stats.set(i, (f.identity, updated));
        },
        None => {
            let mut stat = f.stat();
            stat.cumulative = v;
            stats.push((f.identity, stat));
        },
    }
    assert(stat_entries(stats@) =~= bump_cumulative(before, f@, v));
}

fn add_cumulative_all(stats: &mut Vec<(FrameIdentity, FrameStat)>, frames: &Vec<ResolvedFrame>, v: i64)
    ensures
        stat_entries(final(stats)@) == bump_cumulative_all(stat_entries(old(stats)@), frame_views(frames@), v),
{
    let ghost start = stat_entries(stats@);
    let ghost fv = frame_views(frames@);
    let mut k: usize = 0;
    while k < frames.len()
        invariant
            fv == frame_views(frames@),
            k <= frames@.len(),
            stat_entries(stats@) == bump_cumulative_all(start, fv.take(k as int), v),
        decreases frames@.len() - k,
    {
        let mut seen = false;
        let mut j: usize = 0;
        while j < k
            invariant
                fv == frame_views(frames@),
                j <= k < frames@.len(),
                seen == (exists|w: int| 0 <= w < j && #[trigger] frames@[w].identity == frames@[k as int].identity),
            decreases k - j,
        {
            if frames[j].identity == frames[k].identity {
                seen = true;
            }
            j = j + 1;
        }
        proof {
            let ids = identities(fv.take(k as int));
            let target = frames@[k as int].identity;
            if seen {
                let w = choose|w: int| 0 <= w < k && #[trigger] frames@[w].identity == target;
                assert(ids[w] == target);
            }
            if ids.contains(target) {
                let w = choose|w: int| 0 <= w < ids.len() && ids[w] == target;
                assert(frames@[w].identity == target);
            }
            assert(fv.take(k + 1).drop_last() =~= fv.take(k as int));
            assert(fv.take(k + 1).last() == frames@[k as int]@);
        }
        if !seen {
            add_cumulative(stats, &frames[k], v);
        }
        k = k + 1;
    }
    proof {
        assert(fv.take(k as int) =~= fv);
    }
}

fn frame_identities(frames: &Vec<ResolvedFrame>) -> (r: Vec<FrameIdentity>)
    ensures
        r@ == identities(frame_views(frames@)),
{
    let mut out: Vec<FrameIdentity> = Vec::new();
    let mut i: usize = 0;
    while i < frames.len()
        invariant
            i <= frames@.len(),
            out@ == identities(frame_views(frames@)).take(i as int),
        decreases frames@.len() - i,
    {
        out.push(frames[i].identity);
        i = i + 1;
        assert(out@ =~= identities(frame_views(frames@)).take(i as int));
    }
    assert(identities(frame_views(frames@)).take(i as int) =~= identities(frame_views(frames@)));
    out
}

fn report_frames(frames: &Vec<ResolvedFrame>) -> (r: Vec<ReportFrame>)
    ensures
        r@.map_values(rframe_view_fn()) == frame_views(frames@).map_values(|f: FrameModel| report_frame_of(f)),
{
    let ghost target = frame_views(frames@).map_values(|f: FrameModel| report_frame_of(f));
    let mut out: Vec<ReportFrame> = Vec::new();
    let mut i: usize = 0;
    while i < frames.len()
        invariant
            target == frame_views(frames@).map_values(|f: FrameModel| report_frame_of(f)),
            i <= frames@.len(),
            out@.map_values(rframe_view_fn()) == target.take(i as int),
        decreases frames@.len() - i,
    {
        let ghost before = out@;
        out.push(frames[i].report_frame());
        proof {
            assert(out@.map_values(rframe_view_fn()) =~= before.map_values(rframe_view_fn()).push(out@[i as int]@));
        }
        i = i + 1;
        assert(out@.map_values(rframe_view_fn()) =~= target.take(i as int));
    }
    assert(target.take(i as int) =~= target);
    out
}


// ---------------------------------------------------------------------------
// Ranking
// ---------------------------------------------------------------------------

/// `a` ranks no lower than `b`: larger absolute flat cost first, then larger
/// absolute cumulative cost, then function name in lexicographic order.
pub open spec fn frame_rank_le(a: FrameStatModel, b: FrameStatModel) -> bool {
    let fa = sat_abs(a.flat);
    let fb = sat_abs(b.flat);
    let ca = sat_abs(a.cumulative);
    let cb = sat_abs(b.cumulative);
    fa > fb || (fa == fb && (ca > cb || (ca == cb && !chars_lt(b.function, a.function))))
}

/// The function names along a ranked stack, root first.
pub open spec fn stack_names(s: StackStatModel) -> Seq<Seq<char>> {
    s.frames.map_values(|f: (Seq<char>, Seq<char>, i64)| f.0)
}

/// Lexicographic order of name lists, names compared lexicographically.
pub open spec fn names_lt(a: Seq<Seq<char>>, b: Seq<Seq<char>>) -> bool {
    lex_lt(a, b, |x: Seq<char>, y: Seq<char>| chars_lt(x, y))
}

/// `a` ranks no lower than `b`: larger absolute cost first, then the list
/// of function names in lexicographic order.
pub open spec fn stack_rank_le(a: StackStatModel, b: StackStatModel) -> bool {
    let va = sat_abs(a.value);
    let vb = sat_abs(b.value);
    va > vb || (va == vb && !names_lt(stack_names(b), stack_names(a)))
}

pub open spec fn frame_le() -> spec_fn(FrameStat, FrameStat) -> bool {
    |a: FrameStat, b: FrameStat| frame_rank_le(a@, b@)
}

pub open spec fn stack_le() -> spec_fn(StackStat, StackStat) -> bool {
    |a: StackStat, b: StackStat| stack_rank_le(a@, b@)
}

pub open spec fn stat_view_fn() -> spec_fn(FrameStat) -> FrameStatModel {
    |f: FrameStat| f@
}

pub open spec fn stack_view_fn() -> spec_fn(StackStat) -> StackStatModel {
    |s: StackStat| s@
}

proof fn lemma_frame_rank_preorder()
    ensures
        total_preorder(frame_le()),
{
    assert forall|x: Seq<char>, y: Seq<char>| true implies (chars_order(x, y) != 1 <==> !chars_lt(y, x)) by {
        lemma_chars_order(x, y);
    }
    lemma_chars_order(Seq::empty(), Seq::empty());
    let lt = |x: Seq<char>, y: Seq<char>| chars_lt(x, y);
    assert(strict_total(lt));
    assert forall|a: FrameStat, b: FrameStat, c: FrameStat|
        #[trigger] frame_le()(a, b) && #[trigger] frame_le()(b, c) implies frame_le()(a, c) by {
        if chars_lt(c.function@, a.function@) && !chars_lt(b.function@, a.function@) && !chars_lt(c.function@, b.function@) {
            if a.function@ != b.function@ {
                assert(lt(a.function@, b.function@) || lt(b.function@, a.function@));
                assert(lt(c.function@, a.function@) && lt(a.function@, b.function@));
            }
        }
    }
    assert forall|a: FrameStat, b: FrameStat| #[trigger] frame_le()(a, b) || frame_le()(b, a) by {
        if a.function@ != b.function@ {
            assert(lt(a.function@, b.function@) || lt(b.function@, a.function@));
            if lt(a.function@, b.function@) && lt(b.function@, a.function@) {
                assert(lt(a.function@, a.function@));
            }
        }
    }
    assert forall|a: FrameStat| #[trigger] frame_le()(a, a) by {
        assert(!lt(a.function@, a.function@));
    }
}

proof fn lemma_stack_rank_preorder()
    ensures
        total_preorder(stack_le()),
{
    lemma_chars_order(Seq::empty(), Seq::empty());
    let lt = |x: Seq<char>, y: Seq<char>| chars_lt(x, y);
    assert(strict_total(lt));
    lemma_lex_strict_total(lt);
    let nlt = |x: Seq<Seq<char>>, y: Seq<Seq<char>>| lex_lt(x, y, lt);
    assert(strict_total(nlt));
    assert forall|x: Seq<Seq<char>>, y: Seq<Seq<char>>| #[trigger] names_lt(x, y) == nlt(x, y) by {}
    assert forall|a: StackStat, b: StackStat, c: StackStat|
        #[trigger] stack_le()(a, b) && #[trigger] stack_le()(b, c) implies stack_le()(a, c) by {
        let (na, nb, nc) = (stack_names(a@), stack_names(b@), stack_names(c@));
        if nlt(nc, na) && !nlt(nb, na) && !nlt(nc, nb) {
            if na != nb {
                assert(nlt(na, nb) || nlt(nb, na));
                assert(nlt(nc, na) && nlt(na, nb));
            }
        }
    }
    assert forall|a: StackStat, b: StackStat| #[trigger] stack_le()(a, b) || stack_le()(b, a) by {
        let (na, nb) = (stack_names(a@), stack_names(b@));
        if na != nb {
            assert(nlt(na, nb) || nlt(nb, na));
            if nlt(na, nb) && nlt(nb, na) {
                assert(nlt(na, na));
            }
        }
    }
    assert forall|a: StackStat| #[trigger] stack_le()(a, a) by {
        assert(!nlt(stack_names(a@), stack_names(a@)));
    }
}

/// Lexicographic comparison of two stacks' function names: `-1`, `0` or `1`.
fn compare_names(a: &Vec<ReportFrame>, b: &Vec<ReportFrame>) -> (r: i8)
    ensures
        r == 0 <==> a@.map_values(|f: ReportFrame| f@.0) == b@.map_values(|f: ReportFrame| f@.0),
        r == -1 <==> names_lt(a@.map_values(|f: ReportFrame| f@.0), b@.map_values(|f: ReportFrame| f@.0)),
        r == -1 || r == 0 || r == 1,
{
    let ghost x = a@.map_values(|f: ReportFrame| f@.0);
    let ghost y = b@.map_values(|f: ReportFrame| f@.0);
    let ghost lt = |p: Seq<char>, q: Seq<char>| chars_lt(p, q);
    proof {
        lemma_chars_order(Seq::empty(), Seq::empty());
        lemma_lex_strict_total(lt);
    }
    let mut i: usize = 0;
    while i < a.len() && i < b.len()
        invariant
            x == a@.map_values(|f: ReportFrame| f@.0),
            y == b@.map_values(|f: ReportFrame| f@.0),
            lt == (|p: Seq<char>, q: Seq<char>| chars_lt(p, q)),
            strict_total(lt),
            i <= a@.len(),
            i <= b@.len(),
            x.take(i as int) == y.take(i as int),
        decreases a@.len() - i,
    {
        let c = compare_str(a[i].function.as_str(), b[i].function.as_str());
        proof {
            lemma_chars_order(x[i as int], y[i as int]);
            lemma_lex_step(x, y, i as int, lt);
        }
        if c != 0 {
            proof {
                assert(x[i as int] != y[i as int]);
                assert(x.skip(i as int)[0] == x[i as int]);
                assert(y.skip(i as int)[0] == y[i as int]);
                if c == -1 {
                    assert(lex_lt(x.skip(i as int), y.skip(i as int), lt));
                } else {
                    assert(lt(y[i as int], x[i as int]));
                    assert(!lt(x[i as int], y[i as int]));
                    assert(!lex_lt(x.skip(i as int), y.skip(i as int), lt));
                }
                assert(x != y);
            }
            return c;
        }
        proof {
            assert(x.take(i + 1) =~= x.take(i as int).push(x[i as int]));
            assert(y.take(i + 1) =~= y.take(i as int).push(y[i as int]));
        }
        i = i + 1;
    }
    proof {
        lemma_lex_step(x, y, i as int, lt);
    }
    if a.len() == b.len() {
        assert(x =~= x.take(i as int));
        assert(y =~= y.take(i as int));
        proof {
            assert(!lex_lt(x, x, lt));
        }
        0
    } else if a.len() < b.len() {
        assert(x.len() != y.len());
        -1
    } else {
        assert(x.len() != y.len());
        assert(!lex_lt(x.skip(i as int), y.skip(i as int), lt));
        1
    }
}


// ---------------------------------------------------------------------------
// The report
// ---------------------------------------------------------------------------

/// What a report says.
pub struct ReportModel {
    pub sample_type: Seq<char>,
    pub sample_unit: Seq<char>,
    pub available_sample_types: Seq<Seq<char>>,
    pub duration_nanos: i64,
    pub sample_records: nat,
    pub total_value: i64,
    pub top_frames: Seq<FrameStatModel>,
    pub top_stacks: Seq<StackStatModel>,
}

/// The statistics of a tally, without their keys.
pub open spec fn stat_values(t: Seq<(FrameIdentity, FrameStatModel)>) -> Seq<FrameStatModel> {
    t.map_values(|e: (FrameIdentity, FrameStatModel)| e.1)
}

/// The stack statistics of a tally, without their keys.
pub open spec fn stack_values(t: Seq<(Seq<FrameIdentity>, StackStatModel)>) -> Seq<StackStatModel> {
    t.map_values(|e: (Seq<FrameIdentity>, StackStatModel)| e.1)
}

/// `rep` is the analysis of profile `m` for sample type `si`: its metadata,
/// the total cost, and every frame and stack statistic of the tally, each
/// list ranked.
pub open spec fn analyzes(rep: ReportModel, m: ProfileModel, si: nat) -> bool {
    let t = tally_of(m, si, m.samples);
    &&& si < m.value_types.len()
    &&& rep.sample_type == string_at(m.strings, m.value_types[si as int].type_)
    &&& rep.sample_unit == string_at(m.strings, m.value_types[si as int].unit)
    &&& rep.available_sample_types == type_names(m)
    &&& rep.duration_nanos == m.duration_nanos
    &&& rep.sample_records == m.samples.len()
    &&& rep.total_value == t.total
    &&& sorted_by(rep.top_frames, |a: FrameStatModel, b: FrameStatModel| frame_rank_le(a, b))
    &&& rep.top_frames.to_multiset() == stat_values(t.stats).to_multiset()
    &&& sorted_by(rep.top_stacks, |a: StackStatModel, b: StackStatModel| stack_rank_le(a, b))
    &&& rep.top_stacks.to_multiset() == stack_values(t.stacks).to_multiset()
}

/// The requested sample type as a mathematical value.
pub open spec fn requested_view(requested: Option<&str>) -> Option<Seq<char>> {
    match requested {
        Some(s) => Some(s@),
        None => None,
    }
}

/// `e` is the error `sample_index` gives for a failure `f` of profile `m`.
pub open spec fn index_error(m: ProfileModel, requested: Option<Seq<char>>, f: SampleIndexFailure, e: ReportError) -> bool {
    match f {
        SampleIndexFailure::NoSampleTypes => e == ReportError::NoSampleTypes,
        SampleIndexFailure::IndexOutOfRange(i) => e == (ReportError::IndexOutOfRange {
            index: i as usize,
            len: m.value_types.len() as usize,
        }),
        SampleIndexFailure::Unknown => e matches ReportError::UnknownSampleType { requested: q, available } && Some(q@) == requested && string_views(available@) == type_names(m),
    }
}

/// An analyzed pprof profile, ranked by actionable flat cost.
#[derive(Debug, Clone)]
pub struct ProfileReport {
    sample_type: String,
    sample_unit: String,
    available_sample_types: Vec<String>,
    duration_nanos: i64,
    sample_records: usize,
    total_value: i64,
    top_frames: Vec<FrameStat>,
    top_stacks: Vec<StackStat>,
}

impl ProfileReport {
    pub closed spec fn view(&self) -> ReportModel {
        ReportModel {
            sample_type: self.sample_type@,
            sample_unit: self.sample_unit@,
            available_sample_types: string_views(self.available_sample_types@),
            duration_nanos: self.duration_nanos,
            sample_records: self.sample_records as nat,
            total_value: self.total_value,
            top_frames: self.top_frames@.map_values(stat_view_fn()),
            top_stacks: self.top_stacks@.map_values(stack_view_fn()),
        }
    }

    /// Analyzes an already-decoded pprof profile for the requested sample type
    /// (see `sample_index`).
    pub fn from_profile(profile: &PprofProfile, sample_type: Option<&str>) -> (r: Result<Self, ReportError>)
        ensures
            match sample_index_of(profile@, requested_view(sample_type)) {
                Ok(si) => r matches Ok(rep) && analyzes(rep@, profile@, si),
                Err(f) => r matches Err(e) && index_error(profile@, requested_view(sample_type), f, e),
            },
    {
        let si = match sample_index(profile, sample_type) {
            Ok(i) => i,
            Err(e) => {
                return Err(e);
            },
        };
        proof {
            lemma_first_named_found(type_names(profile@), string_at(profile@.strings, profile@.default_sample_type));
            if let Some(r) = requested_view(sample_type) {
                lemma_first_named_found(type_names(profile@), r);
            }
        }
        proof {
            let res = sample_index_of(profile@, requested_view(sample_type));
            assert(profile.value_types@.len() == profile.value_types.len());
            if let Ok(i) = res {
                assert(i < profile.value_types@.len());
                assert(si == i as usize);
                assert(si as nat == i);
            }
        }
        assert(si < profile.value_types@.len());
        let selected = profile.value_types[si];
        let sample_type_name = profile_string(profile, selected.type_).to_owned();
        let sample_unit = profile_string(profile, selected.unit).to_owned();
        let available = all_type_names(profile);
        let ghost m = profile@;
        let mut stats: Vec<(FrameIdentity, FrameStat)> = Vec::new();
        let mut stacks: Vec<(Vec<FrameIdentity>, StackStat)> = Vec::new();
        let mut total: i64 = 0;
        let mut k: usize = 0;
        proof {
            assert(stat_entries(stats@) =~= Seq::<(FrameIdentity, FrameStatModel)>::empty());
            assert(stack_entries(stacks@) =~= Seq::<(Seq<FrameIdentity>, StackStatModel)>::empty());
        }
        while k < profile.samples.len()
            invariant
                m == profile@,
                k <= profile.samples@.len(),
                total == tally_of(m, si as nat, m.samples.take(k as int)).total,
                stat_entries(stats@) == tally_of(m, si as nat, m.samples.take(k as int)).stats,
                stack_entries(stacks@) == tally_of(m, si as nat, m.samples.take(k as int)).stacks,
            decreases profile.samples@.len() - k,
        {
            let sample = &profile.samples[k];
            proof {
                assert(m.samples.take(k + 1).drop_last() =~= m.samples.take(k as int));
                assert(m.samples.take(k + 1).last() == sample@);
            }
            if si < sample.values.len() {
                let value = sample.values[si];
                let ghost t = tally_of(m, si as nat, m.samples.take(k as int));
                total = saturating_add(total, saturating_abs(value));
                let frames = resolve_stack(profile, sample);
                let key = frame_identities(&frames);
                if key.len() > 0 {
                    let ghost before = stack_entries(stacks@);
                    match find_stack(&stacks, &key) {
                        Some(i) => {
                            let updated = StackStat {
                                frames: copy_report_frames(&stacks[i].1.frames),
                                value: saturating_add(stacks[i].1.value, value),
                            };
                            let key_copy = copy_identities(&stacks[i].0);
                            stacks.set(i, (key_copy, updated));
                            proof {
                                lemma_key_index_found(before, key@);
                                assert(stack_entries(stacks@) =~= before.update(
                                    i as int,
                                    (identities(frame_views(frames@)), StackStatModel {
                                        frames: before[i as int].1.frames,
                                        value: sat_add(before[i as int].1.value, value),
                                    }),
                                ));
                            }
                        },
                        None => {
                            let entry = StackStat { frames: report_frames(&frames), value };
                            stacks.push((key, entry));
                            proof {
                                assert(stack_entries(stacks@) =~= before.push(
                                    (identities(frame_views(frames@)), StackStatModel {
                                        frames: frame_views(frames@).map_values(|f: FrameModel| report_frame_of(f)),
                                        value,
                                    }),
                                ));
                            }
                        },
                    }
                }
                if frames.len() > 0 {
                    add_flat(&mut stats, &frames[frames.len() - 1], value);
                    proof {
                        assert(frame_views(frames@).last() == frames@[frames@.len() - 1]@);
                    }
                }
                add_cumulative_all(&mut stats, &frames, value);
            }
            k = k + 1;
        }
        proof {
            assert(m.samples.take(k as int) =~= m.samples);
        }
        let ghost t = tally_of(m, si as nat, m.samples);
        let frame_list = stat_list(stats);
        let stack_list = stack_list_of(stacks);
        let frame_rank = |a: &FrameStat, b: &FrameStat| -> (r: bool)
            ensures
                r == frame_rank_le(a@, b@),
            {
                let fa = saturating_abs(a.flat);
                let fb = saturating_abs(b.flat);
                let ca = saturating_abs(a.cumulative);
                let cb = saturating_abs(b.cumulative);
                if fa != fb {
                    fa > fb
                } else if ca != cb {
                    ca > cb
                } else {
                    let c = compare_str(a.function.as_str(), b.function.as_str());
                    proof {
                        lemma_chars_order(a.function@, b.function@);
                    }
                    c != 1
                }
            };
        let stack_rank = |a: &StackStat, b: &StackStat| -> (r: bool)
            ensures
                r == stack_rank_le(a@, b@),
            {
                let va = saturating_abs(a.value);
                let vb = saturating_abs(b.value);
                if va != vb {
                    va > vb
                } else {
                    let c = compare_names(&a.frames, &b.frames);
                    proof {
                        lemma_names_view(a);
                        lemma_names_view(b);
                        lemma_names_order(stack_names(a@), stack_names(b@));
                    }
                    c != 1
                }
            };
        proof {
            lemma_frame_rank_preorder();
            lemma_stack_rank_preorder();
        }
        let top_frames = sort_by_rank(frame_list, frame_rank, Ghost(frame_le()));
        let top_stacks = sort_by_rank(stack_list, stack_rank, Ghost(stack_le()));
        let r = ProfileReport {
            sample_type: sample_type_name,
            sample_unit,
            available_sample_types: available,
            duration_nanos: profile.duration_nanos,
            sample_records: profile.samples.len(),
            total_value: total,
            top_frames,
            top_stacks,
        };
        proof {
            let fv = top_frames@.map_values(stat_view_fn());
            assert forall|i: int, j: int| 0 <= i < j < fv.len() implies #[trigger] frame_rank_le(fv[i], fv[j]) by {
                assert(frame_le()(top_frames@[i], top_frames@[j]));
            }
            lemma_map_multiset(top_frames@, frame_list@, stat_view_fn());
            let sv = top_stacks@.map_values(stack_view_fn());
            assert forall|i: int, j: int| 0 <= i < j < sv.len() implies #[trigger] stack_rank_le(sv[i], sv[j]) by {
                assert(stack_le()(top_stacks@[i], top_stacks@[j]));
            }
            lemma_map_multiset(top_stacks@, stack_list@, stack_view_fn());
            let rep = r@;
            assert(rep.top_frames == fv);
            assert(rep.total_value == t.total);
            assert(rep.available_sample_types == type_names(m));
            assert(rep.top_frames.to_multiset() == stat_values(t.stats).to_multiset());
            assert(rep.top_stacks.to_multiset() == stack_values(t.stacks).to_multiset());
            assert(sample_index_of(profile@, requested_view(sample_type)) == Ok::<nat, SampleIndexFailure>(si as nat));
        }
        Ok(r)
    }

    /// The analyzed sample type's name and unit.
    pub fn sample_type(&self) -> (r: (&str, &str))
        ensures
            r.0@ == self@.sample_type,
            r.1@ == self@.sample_unit,
    {
        (self.sample_type.as_str(), self.sample_unit.as_str())
    }

    /// The summed absolute cost of all samples.
    pub fn total_value(&self) -> (r: i64)
        ensures
            r == self@.total_value,
    {
        self.total_value
    }

    /// Frame statistics, highest flat cost first.
    pub fn top_frames(&self) -> (r: &[FrameStat])
        ensures
            r@.map_values(stat_view_fn()) == self@.top_frames,
    {
        self.top_frames.as_slice()
    }

    /// Stack statistics, highest cost first.
    pub fn top_stacks(&self) -> (r: &[StackStat])
        ensures
            r@.map_values(stack_view_fn()) == self@.top_stacks,
    {
        self.top_stacks.as_slice()
    }

    /// The names of all sample types of the profile.
    pub fn available_sample_types(&self) -> (r: &[String])
        ensures
            string_views(r@) == self@.available_sample_types,
    {
        self.available_sample_types.as_slice()
    }

    /// The profile's duration in nanoseconds.
    pub fn duration_nanos(&self) -> (r: i64)
        ensures
            r == self@.duration_nanos,
    {
        self.duration_nanos
    }

    /// The number of sample records in the profile.
    pub fn sample_records(&self) -> (r: usize)
        ensures
            r == self@.sample_records,
    {
        self.sample_records
    }
}

proof fn lemma_names_view(s: &StackStat)
    ensures
        s.frames@.map_values(|f: ReportFrame| f@.0) == stack_names(s@),
{
    assert(s.frames@.map_values(|f: ReportFrame| f@.0) =~= stack_names(s@));
}

proof fn lemma_names_order(a: Seq<Seq<char>>, b: Seq<Seq<char>>)
    ensures
        !names_lt(b, a) <==> (a == b || names_lt(a, b)),
{
    lemma_chars_order(Seq::empty(), Seq::empty());
    let lt = |x: Seq<char>, y: Seq<char>| chars_lt(x, y);
    lemma_lex_strict_total(lt);
    let nlt = |x: Seq<Seq<char>>, y: Seq<Seq<char>>| lex_lt(x, y, lt);
    assert(nlt(a, b) == names_lt(a, b));
    assert(nlt(b, a) == names_lt(b, a));
    if a == b {
        assert(!nlt(a, a));
    } else {
        assert(nlt(a, b) || nlt(b, a));
        if nlt(a, b) && nlt(b, a) {
            assert(nlt(a, a));
        }
    }
}

fn copy_report_frames(v: &Vec<ReportFrame>) -> (r: Vec<ReportFrame>)
    ensures
        r@.map_values(rframe_view_fn()) == v@.map_values(rframe_view_fn()),
{
    let mut out: Vec<ReportFrame> = Vec::new();
    let mut i: usize = 0;
    while i < v.len()
        invariant
            i <= v@.len(),
            out@.map_values(rframe_view_fn()) == v@.take(i as int).map_values(rframe_view_fn()),
        decreases v@.len() - i,
    {
        let ghost before = out@;
        out.push(ReportFrame { function: v[i].function.clone(), file: v[i].file.clone(), line: v[i].line });
        proof {
            assert(out@.map_values(rframe_view_fn()) =~= before.map_values(rframe_view_fn()).push(v@[i as int]@));
            assert(v@.take(i + 1).map_values(rframe_view_fn()) =~= v@.take(i as int).map_values(rframe_view_fn()).push(v@[i as int]@));
        }
        i = i + 1;
        assert(out@.map_values(rframe_view_fn()) =~= v@.take(i as int).map_values(rframe_view_fn()));
    }
    assert(v@.take(i as int) =~= v@);
    out
}

fn copy_identities(v: &Vec<FrameIdentity>) -> (r: Vec<FrameIdentity>)
    ensures
        r@ == v@,
{
    let mut out: Vec<FrameIdentity> = Vec::new();
    let mut i: usize = 0;
    while i < v.len()
        invariant
            i <= v@.len(),
            out@ == v@.take(i as int),
        decreases v@.len() - i,
    {
        out.push(v[i]);
        i = i + 1;
        assert(out@ =~= v@.take(i as int));
    }
    assert(v@.take(i as int) =~= v@);
    out
}

fn stat_list(stats: Vec<(FrameIdentity, FrameStat)>) -> (r: Vec<FrameStat>)
    ensures
        r@.map_values(stat_view_fn()) == stat_values(stat_entries(stats@)),
{
    let ghost all = stats@;
    let mut out: Vec<FrameStat> = Vec::new();
    let mut rest = stats;
    let ghost mut k: int = 0;
    while rest.len() > 0
        invariant
            0 <= k <= all.len(),
            rest@ == all.skip(k),
            out@.map_values(stat_view_fn()) == stat_values(stat_entries(all.take(k))),
        decreases rest@.len(),
    {
        let (_, stat) = rest.remove(0);
        proof {
            assert(all.skip(k + 1) =~= all.skip(k).drop_first());
            k = k + 1;
        }
        let ghost before = out@;
        out.push(stat);
        proof {
            assert(out@.map_values(stat_view_fn()) =~= before.map_values(stat_view_fn()).push(stat@));
            assert(stat_values(stat_entries(all.take(k))) =~= stat_values(stat_entries(all.take(k - 1))).push(all[k - 1].1@));
        }
    }
    proof {
        assert(all.take(k) =~= all);
    }
    out
}

fn stack_list_of(stacks: Vec<(Vec<FrameIdentity>, StackStat)>) -> (r: Vec<StackStat>)
    ensures
        r@.map_values(stack_view_fn()) == stack_values(stack_entries(stacks@)),
{
    let ghost all = stacks@;
    let mut out: Vec<StackStat> = Vec::new();
    let mut rest = stacks;
    let ghost mut k: int = 0;
    while rest.len() > 0
        invariant
            0 <= k <= all.len(),
            rest@ == all.skip(k),
            out@.map_values(stack_view_fn()) == stack_values(stack_entries(all.take(k))),
        decreases rest@.len(),
    {
        let (_, stat) = rest.remove(0);
        proof {
            assert(all.skip(k + 1) =~= all.skip(k).drop_first());
            k = k + 1;
        }
        let ghost before = out@;
        out.push(stat);
        proof {
            assert(out@.map_values(stack_view_fn()) =~= before.map_values(stack_view_fn()).push(stat@));
            assert(stack_values(stack_entries(all.take(k))) =~= stack_values(stack_entries(all.take(k - 1))).push(all[k - 1].1@));
        }
    }
    proof {
        assert(all.take(k) =~= all);
    }
    out
}


// ---------------------------------------------------------------------------
// Reading profile files
// ---------------------------------------------------------------------------

/// What gzip-decompressing `data` gives, when it is a gzip stream.
pub uninterp spec fn gunzip(data: Seq<u8>) -> Option<Seq<u8>>;

/// Decompresses a gzip stream with `flate2::read::GzDecoder` (read to its
/// end); `None` when the decoder reports an error.  The result depends on
/// `data` alone and is named `gunzip`.
#[verifier::external_body]
fn gunzip_bytes(data: &[u8]) -> (r: Option<Vec<u8>>)
    ensures
        match r {
            Some(v) => gunzip(data@) == Some(v@),
            None => gunzip(data@) is None,
        },
{
    let mut decoded = Vec::new();
    match flate2::read::GzDecoder::new(data).read_to_end(&mut decoded) {
        Ok(_) => Some(decoded),
        Err(_) => None,
    }
}

/// The raw protobuf bytes of a profile file: decompressed when the file
/// starts with the gzip magic bytes, else the file itself.
pub open spec fn decompressed(data: Seq<u8>) -> Option<Seq<u8>> {
    if data.len() >= 2 && data[0] == 0x1f && data[1] == 0x8b {
        gunzip(data)
    } else {
        Some(data)
    }
}

/// Decompresses `data` when it starts with the gzip magic bytes.
pub fn decompress_if_needed(data: &[u8]) -> (r: Result<Vec<u8>, ReportError>)
    ensures
        match decompressed(data@) {
            Some(raw) => r matches Ok(v) && v@ == raw,
            None => r == Err::<Vec<u8>, ReportError>(ReportError::Gzip),
        },
{
    if data.len() >= 2 && data[0] == 0x1f && data[1] == 0x8b {
        match gunzip_bytes(data) {
            Some(v) => Ok(v),
            None => Err(ReportError::Gzip),
        }
    } else {
        let mut out: Vec<u8> = Vec::new();
        let mut i: usize = 0;
        while i < data.len()
            invariant
                i <= data@.len(),
                out@ == data@.take(i as int),
            decreases data@.len() - i,
        {
            out.push(data[i]);
            i = i + 1;
            assert(out@ =~= data@.take(i as int));
        }
        assert(data@.take(i as int) =~= data@);
        Ok(out)
    }
}

impl ProfileReport {
    /// Decodes a raw or gzip-compressed pprof protobuf and analyzes one
    /// sample type (see `from_profile`).
    pub fn from_pprof(data: &[u8], sample_type: Option<&str>) -> (r: Result<Self, ReportError>)
        ensures
            match decompressed(data@) {
                None => r == Err::<Self, ReportError>(ReportError::Gzip),
                Some(raw) => match decode_profile(raw) {
                    Err(e) => r == Err::<Self, ReportError>(ReportError::Decode(e)),
                    Ok(m) => match sample_index_of(m, requested_view(sample_type)) {
                        Ok(si) => r matches Ok(rep) && analyzes(rep@, m, si),
                        Err(f) => r matches Err(e) && index_error(m, requested_view(sample_type), f, e),
                    },
                },
            },
    {
        let raw = match decompress_if_needed(data) {
            Ok(v) => v,
            Err(e) => {
                return Err(e);
            },
        };
        let profile = match PprofProfile::decode(raw.as_slice()) {
            Ok(p) => p,
            Err(e) => {
                return Err(ReportError::Decode(e));
            },
        };
        ProfileReport::from_profile(&profile, sample_type)
    }
}

// ---------------------------------------------------------------------------
// Presentation helpers that need no arithmetic on fractions
// ---------------------------------------------------------------------------

/// Where a frame's code is: nothing without a file, the file without a
/// line, else `file:line`.
pub open spec fn source_location_of(file: Seq<char>, line: i64) -> Seq<char> {
    if file.len() == 0 {
        Seq::empty()
    } else if line == 0 {
        file
    } else {
        file + seq![':'] + crate::text::decimal(line as int)
    }
}

/// The source location of a frame as a report shows it.
pub fn source_location(frame: &FrameStat) -> (r: String)
    ensures
        r@ == source_location_of(frame.file@, frame.line),
{
    if frame.file.as_str().is_empty() {
        return String::new();
    }
    if frame.line == 0 {
        return frame.file.clone();
    }
    let digits = crate::text::format_i64(frame.line);
    let mut out: Vec<char> = crate::sampler::chars_of(frame.file.as_str());
    out.push(':');
    let ds = crate::sampler::chars_of(digits.as_str());
    let ghost head = out@;
    let mut i: usize = 0;
    while i < ds.len()
        invariant
            i <= ds@.len(),
            out@ == head + ds@.take(i as int),
        decreases ds@.len() - i,
    {
        out.push(ds[i]);
        i = i + 1;
        assert(out@ =~= head + ds@.take(i as int));
    }
    assert(ds@.take(i as int) =~= ds@);
    crate::text::collect_chars(out)
}

/// The unit a value is shown in.
#[derive(Debug, Clone, Copy, PartialEq, Eq)]
pub enum ValueScale {
    Seconds,
    Milliseconds,
    Microseconds,
    Nanoseconds,
    GiB,
    MiB,
    KiB,
    Bytes,
    /// A plain count.
    Plain,
    /// The value followed by its unit's name.
    Other,
}

/// `c` with ASCII capitals lowered.
pub open spec fn ascii_lower_char(c: char) -> char {
    if 'A' <= c && c <= 'Z' {
        ((c as u32) + 32) as char
    } else {
        c
    }
}

/// `s` with ASCII capitals lowered.
pub open spec fn ascii_lower(s: Seq<char>) -> Seq<char> {
    s.map_values(|c: char| ascii_lower_char(c))
}

fn ascii_lowercase(s: &str) -> (r: String)
    ensures
        r@ == ascii_lower(s@),
{
    let chars = crate::sampler::chars_of(s);
    let mut out: Vec<char> = Vec::new();
    let mut i: usize = 0;
    while i < chars.len()
        invariant
            i <= chars@.len(),
            chars@ == s@,
            out@ == ascii_lower(s@.take(i as int)),
        decreases chars@.len() - i,
    {
        let c = chars[i];
        let lower = if 'A' <= c && c <= 'Z' {
            ((c as u8) + 32) as char
        } else {
            c
        };
        proof {
            if 'A' <= c && c <= 'Z' {
                assert((c as u8) as u32 == c as u32);
            }
        }
        out.push(lower);
        i = i + 1;
        assert(out@ =~= ascii_lower(s@.take(i as int)));
    }
    assert(s@.take(i as int) =~= s@);
    crate::text::collect_chars(out)
}

/// The names of nanosecond units.
pub open spec fn is_nanosecond_unit(u: Seq<char>) -> bool {
    u == "nanoseconds"@ || u == "nanosecond"@ || u == "ns"@
}

/// The names of byte units.
pub open spec fn is_byte_unit(u: Seq<char>) -> bool {
    u == "bytes"@ || u == "byte"@
}

/// The names of plain counts.
pub open spec fn is_count_unit(u: Seq<char>) -> bool {
    u == ""@ || u == "count"@ || u == "samples"@ || u == "objects"@
}

/// The scale a value of the given unit is shown at: nanosecond units by
/// magnitude as s, ms, µs or ns; byte units as GiB, MiB, KiB or bytes;
/// counts plainly; anything else with its unit's name (unit names are
/// compared ignoring ASCII case).
pub open spec fn value_scale_of(value: i64, unit: Seq<char>) -> ValueScale {
    let m = sat_abs(value);
    let u = ascii_lower(unit);
    if is_nanosecond_unit(u) {
        if m >= 1_000_000_000 {
            ValueScale::Seconds
        } else if m >= 1_000_000 {
            ValueScale::Milliseconds
        } else if m >= 1_000 {
            ValueScale::Microseconds
        } else {
            ValueScale::Nanoseconds
        }
    } else if is_byte_unit(u) {
        if m >= 1_073_741_824 {
            ValueScale::GiB
        } else if m >= 1_048_576 {
            ValueScale::MiB
        } else if m >= 1_024 {
            ValueScale::KiB
        } else {
            ValueScale::Bytes
        }
    } else if is_count_unit(u) {
        ValueScale::Plain
    } else {
        ValueScale::Other
    }
}

pub(crate) fn same_text(a: &str, b: &str) -> (r: bool)
    ensures
        r == (a@ == b@),
{
    let c = compare_str(a, b);
    proof {
        lemma_chars_order(a@, b@);
    }
    c == 0
}

/// The scale at which a value of `unit` is shown (see `value_scale_of`).
pub fn value_scale(value: i64, unit: &str) -> (r: ValueScale)
    ensures
        r == value_scale_of(value, unit@),
{
    let m = saturating_abs(value);
    let lower = ascii_lowercase(unit);
    let u = lower.as_str();
    if same_text(u, "nanoseconds") || same_text(u, "nanosecond") || same_text(u, "ns") {
        if m >= 1_000_000_000 {
            ValueScale::Seconds
        } else if m >= 1_000_000 {
            ValueScale::Milliseconds
        } else if m >= 1_000 {
            ValueScale::Microseconds
        } else {
            ValueScale::Nanoseconds
        }
    } else if same_text(u, "bytes") || same_text(u, "byte") {
        if m >= 1_073_741_824 {
            ValueScale::GiB
        } else if m >= 1_048_576 {
            ValueScale::MiB
        } else if m >= 1_024 {
            ValueScale::KiB
        } else {
            ValueScale::Bytes
        }
    } else if same_text(u, "") || same_text(u, "count") || same_text(u, "samples") || same_text(u, "objects") {
        ValueScale::Plain
    } else {
        ValueScale::Other
    }
}

// ---------------------------------------------------------------------------
// What the key observations and the cumulative view are made of
// ---------------------------------------------------------------------------

/// The frames that the key observations of a report name, and the part of
/// the cost its top stacks carry.
#[derive(Debug, Clone, Copy, PartialEq, Eq)]
pub struct ObservationFacts {
    /// The largest self-cost hotspot: the first ranked frame with a
    /// non-zero flat cost (an index into `top_frames`).
    pub hotspot: Option<usize>,
    /// The frame on the largest share of cumulative cost short of all of
    /// it, else the one on the largest share (an index into `top_frames`).
    pub bottleneck: Option<usize>,
    /// How many of the top stacks the summary counts: the limit kept
    /// between 1 and 3, and at most the number of stacks.
    pub top_stack_count: usize,
    /// The summed absolute cost of those stacks (saturating).
    pub top_stack_value: i64,
}

/// The index of the first frame among the first `n` that satisfies `pred`
/// with the largest absolute cumulative cost.
pub open spec fn first_max_cumulative(
    frames: Seq<FrameStatModel>,
    pred: spec_fn(FrameStatModel) -> bool,
    n: nat,
) -> Option<nat>
    decreases n,
{
    if n == 0 {
        None
    } else {
        let before = first_max_cumulative(frames, pred, (n - 1) as nat);
        let f = frames[n - 1];
        if !pred(f) {
            before
        } else {
            match before {
                Some(b) => if sat_abs(f.cumulative) > sat_abs(frames[b as int].cumulative) {
                    Some((n - 1) as nat)
                } else {
                    before
                },
                None => Some((n - 1) as nat),
            }
        }
    }
}

/// Frames on some cumulative cost.
pub open spec fn on_some_cost() -> spec_fn(FrameStatModel) -> bool {
    |f: FrameStatModel| f.cumulative != 0
}

/// Frames on some cumulative cost, but not on all of `total`.
pub open spec fn on_part_of(total: i64) -> spec_fn(FrameStatModel) -> bool {
    |f: FrameStatModel| f.cumulative != 0 && sat_abs(f.cumulative) < total
}

/// The index of the first frame with a non-zero flat cost.
pub open spec fn first_hotspot(frames: Seq<FrameStatModel>, n: nat) -> Option<nat>
    decreases n,
{
    if n == 0 {
        None
    } else {
        match first_hotspot(frames, (n - 1) as nat) {
            Some(i) => Some(i),
            None => if frames[n - 1].flat != 0 {
                Some((n - 1) as nat)
            } else {
                None
            },
        }
    }
}

/// The saturating sum of the absolute costs of the first `k` stacks.
pub open spec fn stacks_value(stacks: Seq<StackStatModel>, k: nat) -> i64
    decreases k,
{
    if k == 0 {
        0
    } else {
        sat_add(stacks_value(stacks, (k - 1) as nat), sat_abs(stacks[k - 1].value))
    }
}

/// The facts of the key observations of a report, with `limit` rows.
pub open spec fn observation_facts_of(m: ReportModel, limit: nat) -> (Option<nat>, Option<nat>, nat, i64) {
    let n = m.top_frames.len();
    let bottleneck = match first_max_cumulative(m.top_frames, on_part_of(m.total_value), n) {
        Some(i) => Some(i),
        None => first_max_cumulative(m.top_frames, on_some_cost(), n),
    };
    let clamped: nat = if limit < 1 {
        1
    } else if limit > 3 {
        3
    } else {
        limit
    };
    let count = if clamped < m.top_stacks.len() {
        clamped
    } else {
        m.top_stacks.len()
    };
    (first_hotspot(m.top_frames, n), bottleneck, count, stacks_value(m.top_stacks, count))
}

/// Cumulative cost ranks first: larger absolute cumulative cost, then
/// larger absolute flat cost, then function name in lexicographic order.
pub open spec fn cumulative_rank_le(a: FrameStatModel, b: FrameStatModel) -> bool {
    let fa = sat_abs(a.flat);
    let fb = sat_abs(b.flat);
    let ca = sat_abs(a.cumulative);
    let cb = sat_abs(b.cumulative);
    ca > cb || (ca == cb && (fa > fb || (fa == fb && !chars_lt(b.function, a.function))))
}

pub open spec fn cumulative_le() -> spec_fn(FrameStat, FrameStat) -> bool {
    |a: FrameStat, b: FrameStat| cumulative_rank_le(a@, b@)
}

proof fn lemma_cumulative_rank_preorder()
    ensures
        total_preorder(cumulative_le()),
{
    lemma_chars_order(Seq::empty(), Seq::empty());
    let lt = |x: Seq<char>, y: Seq<char>| chars_lt(x, y);
    assert(strict_total(lt));
    assert forall|a: FrameStat, b: FrameStat, c: FrameStat|
        #[trigger] cumulative_le()(a, b) && #[trigger] cumulative_le()(b, c) implies cumulative_le()(a, c) by {
        if chars_lt(c.function@, a.function@) && !chars_lt(b.function@, a.function@) && !chars_lt(c.function@, b.function@) {
            if a.function@ != b.function@ {
                assert(lt(a.function@, b.function@) || lt(b.function@, a.function@));
                assert(lt(c.function@, a.function@) && lt(a.function@, b.function@));
            }
        }
    }
    assert forall|a: FrameStat, b: FrameStat| #[trigger] cumulative_le()(a, b) || cumulative_le()(b, a) by {
        if a.function@ != b.function@ {
            assert(lt(a.function@, b.function@) || lt(b.function@, a.function@));
            if lt(a.function@, b.function@) && lt(b.function@, a.function@) {
                assert(lt(a.function@, a.function@));
            }
        }
    }
    assert forall|a: FrameStat| #[trigger] cumulative_le()(a, a) by {
        assert(!lt(a.function@, a.function@));
    }
}

fn copy_stat(f: &FrameStat) -> (r: FrameStat)
    ensures
        r@ == f@,
{
    FrameStat {
        function: f.function.clone(),
        file: f.file.clone(),
        line: f.line,
        flat: f.flat,
        cumulative: f.cumulative,
    }
}

impl ProfileReport {
    /// The facts the key observations state (see `observation_facts_of`).
    pub fn observation_facts(&self, limit: usize) -> (r: ObservationFacts)
        ensures
            ({
                let (h, b, c, v) = observation_facts_of(self@, limit as nat);
                &&& r.hotspot == match h {
                    Some(i) => Some(i as usize),
                    None => None::<usize>,
                }
                &&& r.bottleneck == match b {
                    Some(i) => Some(i as usize),
                    None => None::<usize>,
                }
                &&& r.top_stack_count == c
                &&& r.top_stack_value == v
            }),
    {
        let ghost fv = self@.top_frames;
        let n = self.top_frames.len();
        let total = self.total_value;
        let mut hotspot: Option<usize> = None;
        let mut part: Option<usize> = None;
        let mut any: Option<usize> = None;
        let mut i: usize = 0;
        while i < n
            invariant
                n == self.top_frames@.len(),
                fv == self@.top_frames,
                fv == self.top_frames@.map_values(stat_view_fn()),
                total == self@.total_value,
                i <= n,
                hotspot == match first_hotspot(fv, i as nat) {
                    Some(k) => Some(k as usize),
                    None => None::<usize>,
                },
                part == match first_max_cumulative(fv, on_part_of(total), i as nat) {
                    Some(k) => Some(k as usize),
                    None => None::<usize>,
                },
                any == match first_max_cumulative(fv, on_some_cost(), i as nat) {
                    Some(k) => Some(k as usize),
                    None => None::<usize>,
                },
                forall|k: int| 0 <= k < i ==> #[trigger] first_max_cumulative(fv, on_part_of(total), k as nat) is Some
                    ==> first_max_cumulative(fv, on_part_of(total), k as nat).unwrap() < k,
                first_max_cumulative(fv, on_part_of(total), i as nat) matches Some(k) ==> k < i,
                first_max_cumulative(fv, on_some_cost(), i as nat) matches Some(k) ==> k < i,
            decreases n - i,
        {
            let f = &self.top_frames[i];
            proof {
                assert(fv[i as int] == f@);
            }
            if hotspot.is_none() && f.flat != 0 {
                hotspot = Some(i);
            }
            let c = saturating_abs(f.cumulative);
            if f.cumulative != 0 && c < total {
                match part {
                    Some(b) => {
                        proof {
                            assert(fv[b as int] == self.top_frames@[b as int]@);
                        }
                        if c > saturating_abs(self.top_frames[b].cumulative) {
                            part = Some(i);
                        }
                    },
                    None => {
                        part = Some(i);
                    },
                }
            }
            if f.cumulative != 0 {
                match any {
                    Some(b) => {
                        proof {
                            assert(fv[b as int] == self.top_frames@[b as int]@);
                        }
                        if c > saturating_abs(self.top_frames[b].cumulative) {
                            any = Some(i);
                        }
                    },
                    None => {
                        any = Some(i);
                    },
                }
            }
            i = i + 1;
        }
        let bottleneck = match part {
            Some(b) => Some(b),
            None => any,
        };
        let clamped: usize = if limit < 1 {
            1
        } else if limit > 3 {
            3
        } else {
            limit
        };
        let count = if clamped < self.top_stacks.len() {
            clamped
        } else {
            self.top_stacks.len()
        };
        let ghost sv = self@.top_stacks;
        let mut value: i64 = 0;
        let mut k: usize = 0;
        while k < count
            invariant
                sv == self@.top_stacks,
                sv == self.top_stacks@.map_values(stack_view_fn()),
                count <= self.top_stacks@.len(),
                k <= count,
                value == stacks_value(sv, k as nat),
            decreases count - k,
        {
            proof {
                assert(sv[k as int] == self.top_stacks@[k as int]@);
            }
            value = saturating_add(value, saturating_abs(self.top_stacks[k].value));
            k = k + 1;
        }
        ObservationFacts { hotspot, bottleneck, top_stack_count: count, top_stack_value: value }
    }

    /// The frames ranked by cumulative cost (see `cumulative_rank_le`).
    pub fn frames_by_cumulative(&self) -> (r: Vec<FrameStat>)
        ensures
            r@.map_values(stat_view_fn()).to_multiset() == self@.top_frames.to_multiset(),
            forall|i: int, j: int|
                0 <= i < j < r@.len() ==> cumulative_rank_le(r@[i]@, r@[j]@),
    {
        let mut copies: Vec<FrameStat> = Vec::new();
        let mut i: usize = 0;
        while i < self.top_frames.len()
            invariant
                i <= self.top_frames@.len(),
                copies@.map_values(stat_view_fn()) == self.top_frames@.take(i as int).map_values(stat_view_fn()),
            decreases self.top_frames@.len() - i,
        {
            let c = copy_stat(&self.top_frames[i]);
            let ghost before = copies@;
            proof {
                let t = self.top_frames@;
                assert(t.take(i + 1) =~= t.take(i as int).push(t[i as int]));
                assert(stat_view_fn()(c) == stat_view_fn()(t[i as int]));
                assert(before.push(c).map_values(stat_view_fn()) =~= before.map_values(stat_view_fn()).push(
                    stat_view_fn()(c),
                ));
                assert(t.take(i as int).push(t[i as int]).map_values(stat_view_fn()) =~= t.take(
                    i as int,
                ).map_values(stat_view_fn()).push(stat_view_fn()(t[i as int])));
            }
            copies.push(c);
            i = i + 1;
        }
        proof {
            assert(self.top_frames@.take(i as int) =~= self.top_frames@);
            lemma_cumulative_rank_preorder();
        }
        let ghost unsorted = copies@;
        let rank = |a: &FrameStat, b: &FrameStat| -> (r: bool)
            ensures
                r == cumulative_rank_le(a@, b@),
            {
                let fa = saturating_abs(a.flat);
                let fb = saturating_abs(b.flat);
                let ca = saturating_abs(a.cumulative);
                let cb = saturating_abs(b.cumulative);
                if ca != cb {
                    ca > cb
                } else if fa != fb {
                    fa > fb
                } else {
                    let c = compare_str(a.function.as_str(), b.function.as_str());
                    proof {
                        lemma_chars_order(a.function@, b.function@);
                    }
                    c != 1
                }
            };
        let sorted = sort_by_rank(copies, rank, Ghost(cumulative_le()));
        proof {
            lemma_map_multiset(sorted@, unsorted, stat_view_fn());
            assert forall|i: int, j: int| 0 <= i < j < sorted@.len() implies cumulative_rank_le(sorted@[i]@, sorted@[j]@) by {
                assert(cumulative_le()(sorted@[i], sorted@[j]));
            }
        }
        sorted
    }
}

} // verus!
