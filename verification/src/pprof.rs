//! The pprof profile model and its protobuf codec.
//!
//! `encode` writes a raw (uncompressed) pprof protobuf; `decode` reads one
//! back into the same model.

use vstd::prelude::*;
use vstd::utf8::{decode_utf8, encode_utf8, valid_utf8};

use crate::wire::{
    as_unsigned, decode_fields, decode_packed, encode_length_delimited, encode_packed_i64,
    encode_packed_u64, encode_sint64_field, encode_string_field, encode_varint, encode_varint_field, tag_byte,
    ld_field_bytes, ld_fields_bytes, packed_parse, string_field_bytes, string_fields_bytes,
    varint_field_bytes, varint_fields_bytes, varints_bytes, DecodeError, Field, FieldValue, Fields,
    WireField, WireValue,
};

verus! {

// ---------------------------------------------------------------------------
// String table
// ---------------------------------------------------------------------------

/// The profile's string table; index 0 holds the empty string.
#[derive(Debug, Clone, PartialEq, Eq)]
pub struct StringTable {
    pub strings: Vec<String>,
}

/// The first index at which `s` occurs in `table`, if any.
pub open spec fn first_index_of(table: Seq<Seq<char>>, s: Seq<char>) -> Option<int> {
    if exists|i: int| 0 <= i < table.len() && table[i] == s {
        Some(choose|i: int| 0 <= i < table.len() && table[i] == s && (forall|j: int| 0 <= j < i ==> table[j] != s))
    } else {
        None
    }
}

impl StringTable {
    /// The strings of the table as character sequences.
    pub open spec fn view(&self) -> Seq<Seq<char>> {
        self.strings@.map_values(|s: String| s@)
    }

    /// A table holding only the empty string, at index 0.
    pub fn new() -> (r: Self)
        ensures
            r.view() == seq![Seq::<char>::empty()],
    {
        let mut strings: Vec<String> = Vec::new();
        strings.push(String::new());
        let r = StringTable { strings };
        assert(r.view() =~= seq![Seq::<char>::empty()]);
        r
    }

    /// The index of `s`, appending it to the table if it is not there yet.
    /// An existing string keeps the index of its first occurrence.
    pub fn intern(&mut self, s: &str) -> (r: u64)
        ensures
            match first_index_of(old(self).view(), s@) {
                Some(i) => r == i && final(self).view() == old(self).view(),
                None => r == old(self).view().len() && final(self).view() == old(self).view().push(s@),
            },
            first_index_of(final(self).view(), s@) == Some(r as int),
    {
        let owned = s.to_owned();
        let mut i: usize = 0;
        while i < self.strings.len()
            invariant
                0 <= i <= self.strings@.len(),
                self == old(self),
                owned@ == s@,
                forall|j: int| 0 <= j < i ==> self.view()[j] != s@,
            decreases self.strings@.len() - i,
        {
            if self.strings[i] == owned {
                proof {
                    let t = self.view();
                    assert(t[i as int] == s@);
                    let k = first_index_of(t, s@).unwrap();
                    assert(0 <= k < t.len() && t[k] == s@ && forall|j: int| 0 <= j < k ==> t[j] != s@);
                    if k < i {
                    } else if k > i {
                        assert(t[i as int] != s@);
                    }
                }
                return i as u64;
            }
            i = i + 1;
        }
        let idx = self.strings.len() as u64;
        self.strings.push(owned);
        assert(self.view() =~= old(self).view().push(s@));
        proof {
            let t = self.view();
            assert(t[idx as int] == s@);
            let k = first_index_of(t, s@).unwrap();
            assert(0 <= k < t.len() && t[k] == s@ && forall|j: int| 0 <= j < k ==> t[j] != s@);
            if k < idx {
                assert(old(self).view()[k] == t[k]);
            } else if k > idx {
                assert(t[idx as int] != s@);
            }
        }
        idx
    }

    /// A table over `strings`, which must start with the empty string.
    pub fn from_strings(strings: Vec<String>) -> (r: Result<Self, DecodeError>)
        ensures
            strings@.len() > 0 && strings@[0]@.len() == 0 ==> (r matches Ok(t) && t.strings@
                == strings@),
            !(strings@.len() > 0 && strings@[0]@.len() == 0) ==> r == Err::<Self, DecodeError>(
                DecodeError::InvalidStringTable,
            ),
    {
        if strings.len() == 0 || !strings[0].as_str().is_empty() {
            return Err(DecodeError::InvalidStringTable);
        }
        Ok(StringTable { strings })
    }
}

// ---------------------------------------------------------------------------
// pprof message types
// ---------------------------------------------------------------------------

/// A sample or period type: string table indices of its name and unit.
#[derive(Debug, Clone, Copy, PartialEq, Eq)]
pub struct ValueType {
    pub type_: u64,
    pub unit: u64,
}

/// One (possibly inlined) source line of a location.
#[derive(Debug, Clone, Copy, PartialEq, Eq)]
pub struct Line {
    pub function_id: u64,
    pub line: i64,
    pub column: i64,
}

/// A program address, with the source lines it maps to (innermost first).
#[derive(Debug, Clone, PartialEq, Eq)]
pub struct Location {
    pub id: u64,
    pub mapping_id: u64,
    pub address: u64,
    pub lines: Vec<Line>,
    pub is_folded: bool,
}

/// A mapped binary image.
#[derive(Debug, Clone, Copy, PartialEq, Eq)]
pub struct Mapping {
    pub id: u64,
    pub memory_start: u64,
    pub memory_limit: u64,
    pub file_offset: u64,
    pub filename: u64,
    pub build_id: u64,
    pub has_functions: bool,
    pub has_filenames: bool,
    pub has_line_numbers: bool,
    pub has_inline_frames: bool,
}

/// A function: string table indices of its names and file, and its first line.
#[derive(Debug, Clone, Copy, PartialEq, Eq)]
pub struct Function {
    pub id: u64,
    pub name: u64,
    pub system_name: u64,
    pub filename: u64,
    pub start_line: i64,
}

/// A key/value pair attached to a sample. Either `str_index` (a string
/// table index) or `num` is meant to be non-zero, not both.
#[derive(Debug, Clone, Copy, PartialEq, Eq)]
pub struct Label {
    /// String table index for the label key.
    pub key: u64,
    /// String table index for a string value (0 = not a string label).
    pub str_index: u64,
    /// Numeric value (0 = not a numeric label).
    pub num: i64,
    /// String table index for the unit of `num` (0 = no unit).
    pub num_unit: u64,
}

/// One sample: its stack (leaf first), its values and its labels.
#[derive(Debug, Clone, PartialEq, Eq)]
pub struct Sample {
    pub location_ids: Vec<u64>,
    pub values: Vec<i64>,
    pub labels: Vec<Label>,
}

impl Default for ValueType {
    fn default() -> (r: Self)
        ensures
            r == (ValueType { type_: 0, unit: 0 }),
    {
        ValueType { type_: 0, unit: 0 }
    }
}

impl Default for Line {
    fn default() -> (r: Self)
        ensures
            r == (Line { function_id: 0, line: 0, column: 0 }),
    {
        Line { function_id: 0, line: 0, column: 0 }
    }
}

impl Default for Location {
    fn default() -> (r: Self)
        ensures
            r@ == empty_location(),
    {
        Location { id: 0, mapping_id: 0, address: 0, lines: Vec::new(), is_folded: false }
    }
}

impl Default for Mapping {
    fn default() -> (r: Self)
        ensures
            r == empty_mapping(),
    {
        Mapping {
            id: 0,
            memory_start: 0,
            memory_limit: 0,
            file_offset: 0,
            filename: 0,
            build_id: 0,
            has_functions: false,
            has_filenames: false,
            has_line_numbers: false,
            has_inline_frames: false,
        }
    }
}

impl Default for Function {
    fn default() -> (r: Self)
        ensures
            r == (Function { id: 0, name: 0, system_name: 0, filename: 0, start_line: 0 }),
    {
        Function { id: 0, name: 0, system_name: 0, filename: 0, start_line: 0 }
    }
}

impl Default for Label {
    fn default() -> (r: Self)
        ensures
            r == (Label { key: 0, str_index: 0, num: 0, num_unit: 0 }),
    {
        Label { key: 0, str_index: 0, num: 0, num_unit: 0 }
    }
}

impl Default for Sample {
    fn default() -> (r: Self)
        ensures
            r@ == empty_sample(),
    {
        Sample { location_ids: Vec::new(), values: Vec::new(), labels: Vec::new() }
    }
}

// ---------------------------------------------------------------------------
// Mathematical model
// ---------------------------------------------------------------------------

#[verifier::ext_equal]
pub struct LocationModel {
    pub id: u64,
    pub mapping_id: u64,
    pub address: u64,
    pub lines: Seq<Line>,
    pub is_folded: bool,
}

#[verifier::ext_equal]
pub struct SampleModel {
    pub location_ids: Seq<u64>,
    pub values: Seq<i64>,
    pub labels: Seq<Label>,
}

#[verifier::ext_equal]
pub struct ProfileModel {
    pub strings: Seq<Seq<char>>,
    pub value_types: Seq<ValueType>,
    pub samples: Seq<SampleModel>,
    pub mappings: Seq<Mapping>,
    pub locations: Seq<LocationModel>,
    pub functions: Seq<Function>,
    pub time_nanos: i64,
    pub duration_nanos: i64,
    pub period_type: ValueType,
    pub period: i64,
    pub drop_frames: u64,
    pub keep_frames: u64,
    pub comments: Seq<u64>,
    pub default_sample_type: u64,
}

pub open spec fn empty_location() -> LocationModel {
    LocationModel { id: 0, mapping_id: 0, address: 0, lines: Seq::empty(), is_folded: false }
}

pub open spec fn empty_sample() -> SampleModel {
    SampleModel { location_ids: Seq::empty(), values: Seq::empty(), labels: Seq::empty() }
}

pub open spec fn empty_mapping() -> Mapping {
    Mapping {
        id: 0,
        memory_start: 0,
        memory_limit: 0,
        file_offset: 0,
        filename: 0,
        build_id: 0,
        has_functions: false,
        has_filenames: false,
        has_line_numbers: false,
        has_inline_frames: false,
    }
}

impl Location {
    pub open spec fn view(&self) -> LocationModel {
        LocationModel {
            id: self.id,
            mapping_id: self.mapping_id,
            address: self.address,
            lines: self.lines@,
            is_folded: self.is_folded,
        }
    }
}

impl Sample {
    pub open spec fn view(&self) -> SampleModel {
        SampleModel {
            location_ids: self.location_ids@,
            values: self.values@,
            labels: self.labels@,
        }
    }
}

// ---------------------------------------------------------------------------
// Messages whose encoding is empty
// ---------------------------------------------------------------------------

pub open spec fn value_type_is_blank(v: ValueType) -> bool {
    v.type_ == 0 && v.unit == 0
}

pub open spec fn line_is_blank(l: Line) -> bool {
    l.function_id == 0 && l.line == 0 && l.column == 0
}

pub open spec fn label_is_blank(l: Label) -> bool {
    l.key == 0 && l.str_index == 0 && l.num == 0 && l.num_unit == 0
}

pub open spec fn function_is_blank(f: Function) -> bool {
    f.id == 0 && f.name == 0 && f.system_name == 0 && f.filename == 0 && f.start_line == 0
}

pub open spec fn mapping_is_blank(m: Mapping) -> bool {
    m == empty_mapping()
}

pub open spec fn location_is_blank(m: LocationModel) -> bool {
    m.id == 0 && m.mapping_id == 0 && m.address == 0 && m.lines.len() == 0 && !m.is_folded
}

pub open spec fn sample_is_blank(s: SampleModel) -> bool {
    s.location_ids.len() == 0 && s.values.len() == 0 && s.labels.len() == 0
}

/// A profile that the protobuf encoding represents exactly: its string
/// table starts with "", no repeated message in it is blank (a blank
/// message encodes to nothing and is not written).
pub open spec fn is_canonical(m: ProfileModel) -> bool {
    &&& m.strings.len() > 0
    &&& m.strings[0].len() == 0
    &&& forall|i: int| 0 <= i < m.value_types.len() ==> !value_type_is_blank(#[trigger] m.value_types[i])
    &&& forall|i: int| 0 <= i < m.samples.len() ==> !sample_is_blank(#[trigger] m.samples[i])
    &&& forall|i: int, j: int|
        0 <= i < m.samples.len() && 0 <= j < m.samples[i].labels.len() ==> !label_is_blank(
            #[trigger] m.samples[i].labels[j],
        )
    &&& forall|i: int| 0 <= i < m.mappings.len() ==> !mapping_is_blank(#[trigger] m.mappings[i])
    &&& forall|i: int| 0 <= i < m.locations.len() ==> !location_is_blank(#[trigger] m.locations[i])
    &&& forall|i: int, j: int|
        0 <= i < m.locations.len() && 0 <= j < m.locations[i].lines.len() ==> !line_is_blank(
            #[trigger] m.locations[i].lines[j],
        )
    &&& forall|i: int| 0 <= i < m.functions.len() ==> !function_is_blank(#[trigger] m.functions[i])
}

// ---------------------------------------------------------------------------
// Wire encodings
// ---------------------------------------------------------------------------

pub open spec fn bool_u64(b: bool) -> u64 {
    if b {
        1
    } else {
        0
    }
}

pub open spec fn encode_value_type(v: ValueType) -> Seq<u8> {
    varint_field_bytes(1, v.type_) + varint_field_bytes(2, v.unit)
}

pub open spec fn encode_line(l: Line) -> Seq<u8> {
    varint_field_bytes(1, l.function_id) + varint_field_bytes(2, l.line as u64) + varint_field_bytes(
        3,
        l.column as u64,
    )
}

pub open spec fn line_payloads(lines: Seq<Line>) -> Seq<Seq<u8>> {
    lines.map_values(|l: Line| encode_line(l))
}

pub open spec fn encode_location(m: LocationModel) -> Seq<u8> {
    varint_field_bytes(1, m.id) + varint_field_bytes(2, m.mapping_id) + varint_field_bytes(
        3,
        m.address,
    ) + ld_fields_bytes(4, line_payloads(m.lines)) + varint_field_bytes(5, bool_u64(m.is_folded))
}

pub open spec fn encode_mapping(m: Mapping) -> Seq<u8> {
    varint_field_bytes(1, m.id) + varint_field_bytes(2, m.memory_start) + varint_field_bytes(
        3,
        m.memory_limit,
    ) + varint_field_bytes(4, m.file_offset) + varint_field_bytes(5, m.filename)
        + varint_field_bytes(6, m.build_id) + varint_field_bytes(7, bool_u64(m.has_functions))
        + varint_field_bytes(8, bool_u64(m.has_filenames)) + varint_field_bytes(
        9,
        bool_u64(m.has_line_numbers),
    ) + varint_field_bytes(10, bool_u64(m.has_inline_frames))
}

pub open spec fn encode_function(f: Function) -> Seq<u8> {
    varint_field_bytes(1, f.id) + varint_field_bytes(2, f.name) + varint_field_bytes(
        3,
        f.system_name,
    ) + varint_field_bytes(4, f.filename) + varint_field_bytes(5, f.start_line as u64)
}

pub open spec fn encode_label(l: Label) -> Seq<u8> {
    varint_field_bytes(1, l.key) + varint_field_bytes(2, l.str_index) + varint_field_bytes(
        3,
        l.num as u64,
    ) + varint_field_bytes(4, l.num_unit)
}

pub open spec fn label_payloads(labels: Seq<Label>) -> Seq<Seq<u8>> {
    labels.map_values(|l: Label| encode_label(l))
}

pub open spec fn encode_sample(s: SampleModel) -> Seq<u8> {
    ld_field_bytes(1, varints_bytes(s.location_ids)) + ld_field_bytes(
        2,
        varints_bytes(as_unsigned(s.values)),
    ) + ld_fields_bytes(3, label_payloads(s.labels))
}

pub open spec fn value_type_payloads(v: Seq<ValueType>) -> Seq<Seq<u8>> {
    v.map_values(|x: ValueType| encode_value_type(x))
}

pub open spec fn sample_payloads(v: Seq<SampleModel>) -> Seq<Seq<u8>> {
    v.map_values(|x: SampleModel| encode_sample(x))
}

pub open spec fn mapping_payloads(v: Seq<Mapping>) -> Seq<Seq<u8>> {
    v.map_values(|x: Mapping| encode_mapping(x))
}

pub open spec fn location_payloads(v: Seq<LocationModel>) -> Seq<Seq<u8>> {
    v.map_values(|x: LocationModel| encode_location(x))
}

pub open spec fn function_payloads(v: Seq<Function>) -> Seq<Seq<u8>> {
    v.map_values(|x: Function| encode_function(x))
}

pub open spec fn string_payloads(v: Seq<Seq<char>>) -> Seq<Seq<u8>> {
    v.map_values(|x: Seq<char>| encode_utf8(x))
}

/// The pprof protobuf encoding of a profile.
pub open spec fn encode_profile(m: ProfileModel) -> Seq<u8> {
    ld_fields_bytes(1, value_type_payloads(m.value_types))
        + ld_fields_bytes(2, sample_payloads(m.samples))
        + ld_fields_bytes(3, mapping_payloads(m.mappings))
        + ld_fields_bytes(4, location_payloads(m.locations))
        + ld_fields_bytes(5, function_payloads(m.functions))
        + string_fields_bytes(6, string_payloads(m.strings))
        + varint_field_bytes(7, m.drop_frames)
        + varint_field_bytes(8, m.keep_frames)
        + varint_field_bytes(9, m.time_nanos as u64)
        + varint_field_bytes(10, m.duration_nanos as u64)
        + ld_field_bytes(11, encode_value_type(m.period_type))
        + varint_field_bytes(12, m.period as u64)
        + varint_fields_bytes(13, m.comments)
        + varint_field_bytes(14, m.default_sample_type)
}


// ---------------------------------------------------------------------------
// Encoders
// ---------------------------------------------------------------------------

/// A message that can write its own protobuf encoding.
pub trait Encode: Sized {
    spec fn encoding(&self) -> Seq<u8>;

    fn encode(&self, buf: &mut Vec<u8>)
        ensures
            final(buf)@ == old(buf)@ + self.encoding(),
    ;
}

pub open spec fn payloads<M: Encode>(items: Seq<M>) -> Seq<Seq<u8>> {
    items.map_values(|m: M| m.encoding())
}

/// Appending to a buffer in two steps appends the concatenation.
pub proof fn lemma_append_step(b0: Seq<u8>, acc: Seq<u8>, x: Seq<u8>)
    ensures
        (b0 + acc) + x == b0 + (acc + x),
{
    assert((b0 + acc) + x =~= b0 + (acc + x));
}

/// Appends one length-delimited field per item (empty encodings omitted).
fn encode_repeated<M: Encode>(buf: &mut Vec<u8>, field: u32, items: &[M])
    ensures
        final(buf)@ == old(buf)@ + ld_fields_bytes(field as nat, payloads(items@)),
{
    let mut i: usize = 0;
    while i < items.len()
        invariant
            0 <= i <= items@.len(),
            buf@ == old(buf)@ + ld_fields_bytes(field as nat, payloads(items@.subrange(0, i as int))),
        decreases items@.len() - i,
    {
        let mut inner: Vec<u8> = Vec::new();
        items[i].encode(&mut inner);
        assert(inner@ =~= items@[i as int].encoding());
        encode_length_delimited(buf, field, inner.as_slice());
        proof {
            let p = payloads(items@.subrange(0, i + 1));
            assert(p.drop_last() =~= payloads(items@.subrange(0, i as int)));
            assert(p.last() == items@[i as int].encoding());
        }
        i = i + 1;
    }
    assert(items@.subrange(0, items@.len() as int) =~= items@);
}

impl Encode for ValueType {
    open spec fn encoding(&self) -> Seq<u8> {
        encode_value_type(*self)
    }

    fn encode(&self, buf: &mut Vec<u8>) {
        encode_varint_field(buf, 1, self.type_);
        encode_varint_field(buf, 2, self.unit);
        assert(final(buf)@ =~= old(buf)@ + self.encoding());
    }
}

impl Encode for Line {
    open spec fn encoding(&self) -> Seq<u8> {
        encode_line(*self)
    }

    fn encode(&self, buf: &mut Vec<u8>) {
        encode_varint_field(buf, 1, self.function_id);
        encode_sint64_field(buf, 2, self.line);
        encode_sint64_field(buf, 3, self.column);
        assert(final(buf)@ =~= old(buf)@ + self.encoding());
    }
}

impl Encode for Location {
    open spec fn encoding(&self) -> Seq<u8> {
        encode_location(self@)
    }

    fn encode(&self, buf: &mut Vec<u8>) {
        encode_varint_field(buf, 1, self.id);
        encode_varint_field(buf, 2, self.mapping_id);
        encode_varint_field(buf, 3, self.address);
        encode_repeated(buf, 4, self.lines.as_slice());
        encode_varint_field(buf, 5, if self.is_folded { 1 } else { 0 });
        assert(payloads(self.lines@) =~= line_payloads(self.lines@));
        assert(final(buf)@ =~= old(buf)@ + self.encoding());
    }
}

impl Encode for Mapping {
    open spec fn encoding(&self) -> Seq<u8> {
        encode_mapping(*self)
    }

    fn encode(&self, buf: &mut Vec<u8>) {
        let ghost b0 = buf@;
        encode_varint_field(buf, 1, self.id);
        encode_varint_field(buf, 2, self.memory_start);
        proof { lemma_append_step(b0, varint_field_bytes(1, self.id), varint_field_bytes(2, self.memory_start)); }
        let ghost acc = varint_field_bytes(1, self.id) + varint_field_bytes(2, self.memory_start);
        encode_varint_field(buf, 3, self.memory_limit);
        proof { lemma_append_step(b0, acc, varint_field_bytes(3, self.memory_limit)); }
        let ghost acc = acc + varint_field_bytes(3, self.memory_limit);
        encode_varint_field(buf, 4, self.file_offset);
        proof { lemma_append_step(b0, acc, varint_field_bytes(4, self.file_offset)); }
        let ghost acc = acc + varint_field_bytes(4, self.file_offset);
        encode_varint_field(buf, 5, self.filename);
        proof { lemma_append_step(b0, acc, varint_field_bytes(5, self.filename)); }
        let ghost acc = acc + varint_field_bytes(5, self.filename);
        encode_varint_field(buf, 6, self.build_id);
        proof { lemma_append_step(b0, acc, varint_field_bytes(6, self.build_id)); }
        let ghost acc = acc + varint_field_bytes(6, self.build_id);
        encode_varint_field(buf, 7, if self.has_functions { 1 } else { 0 });
        proof { lemma_append_step(b0, acc, varint_field_bytes(7, bool_u64(self.has_functions))); }
        let ghost acc = acc + varint_field_bytes(7, bool_u64(self.has_functions));
        encode_varint_field(buf, 8, if self.has_filenames { 1 } else { 0 });
        proof { lemma_append_step(b0, acc, varint_field_bytes(8, bool_u64(self.has_filenames))); }
        let ghost acc = acc + varint_field_bytes(8, bool_u64(self.has_filenames));
        encode_varint_field(buf, 9, if self.has_line_numbers { 1 } else { 0 });
        proof { lemma_append_step(b0, acc, varint_field_bytes(9, bool_u64(self.has_line_numbers))); }
        let ghost acc = acc + varint_field_bytes(9, bool_u64(self.has_line_numbers));
        encode_varint_field(buf, 10, if self.has_inline_frames { 1 } else { 0 });
        proof { lemma_append_step(b0, acc, varint_field_bytes(10, bool_u64(self.has_inline_frames))); }
    }
}

impl Encode for Function {
    open spec fn encoding(&self) -> Seq<u8> {
        encode_function(*self)
    }

    fn encode(&self, buf: &mut Vec<u8>) {
        encode_varint_field(buf, 1, self.id);
        encode_varint_field(buf, 2, self.name);
        encode_varint_field(buf, 3, self.system_name);
        encode_varint_field(buf, 4, self.filename);
        encode_sint64_field(buf, 5, self.start_line);
        assert(final(buf)@ =~= old(buf)@ + self.encoding());
    }
}

impl Encode for Label {
    open spec fn encoding(&self) -> Seq<u8> {
        encode_label(*self)
    }

    fn encode(&self, buf: &mut Vec<u8>) {
        encode_varint_field(buf, 1, self.key);
        encode_varint_field(buf, 2, self.str_index);
        encode_sint64_field(buf, 3, self.num);
        encode_varint_field(buf, 4, self.num_unit);
        assert(final(buf)@ =~= old(buf)@ + self.encoding());
    }
}

impl Encode for Sample {
    open spec fn encoding(&self) -> Seq<u8> {
        encode_sample(self@)
    }

    fn encode(&self, buf: &mut Vec<u8>) {
        encode_packed_u64(buf, 1, self.location_ids.as_slice());
        encode_packed_i64(buf, 2, self.values.as_slice());
        encode_repeated(buf, 3, self.labels.as_slice());
        assert(payloads(self.labels@) =~= label_payloads(self.labels@));
        assert(final(buf)@ =~= old(buf)@ + self.encoding());
    }
}


/// Appends one string field per string.
fn encode_strings(buf: &mut Vec<u8>, field: u32, strings: &[String])
    ensures
        final(buf)@ == old(buf)@ + string_fields_bytes(
            field as nat,
            string_payloads(strings@.map_values(|s: String| s@)),
        ),
{
    let ghost views = strings@.map_values(|s: String| s@);
    let mut i: usize = 0;
    while i < strings.len()
        invariant
            0 <= i <= strings@.len(),
            views == strings@.map_values(|s: String| s@),
            buf@ == old(buf)@ + string_fields_bytes(field as nat, string_payloads(views.subrange(0, i as int))),
        decreases strings@.len() - i,
    {
        encode_string_field(buf, field, strings[i].as_str());
        proof {
            let p = string_payloads(views.subrange(0, i + 1));
            assert(p.drop_last() =~= string_payloads(views.subrange(0, i as int)));
            assert(p.last() == encode_utf8(strings@[i as int]@));
        }
        i = i + 1;
    }
    assert(views.subrange(0, strings@.len() as int) =~= views);
}

/// Appends one varint field per value, zero values included.
fn encode_varint_fields(buf: &mut Vec<u8>, field: u32, values: &[u64])
    requires
        field < 16,
    ensures
        final(buf)@ == old(buf)@ + varint_fields_bytes(field as nat, values@),
{
    let mut i: usize = 0;
    while i < values.len()
        invariant
            0 <= i <= values@.len(),
            field < 16,
            buf@ == old(buf)@ + varint_fields_bytes(field as nat, values@.subrange(0, i as int)),
        decreases values@.len() - i,
    {
        let tag = (field << 3) as u8;
        assert((field << 3) as u8 == ((field * 8 + 0u8) % 256) as u8) by (bit_vector)
            requires
                field < 16,
        ;
        assert(tag == tag_byte(field as nat, 0));
        buf.push(tag);
        encode_varint(buf, values[i]);
        assert(values@.subrange(0, i + 1).drop_last() =~= values@.subrange(0, i as int));
        i = i + 1;
    }
    assert(values@.subrange(0, values@.len() as int) =~= values@);
}

// ---------------------------------------------------------------------------
// The profile
// ---------------------------------------------------------------------------

/// A complete pprof profile.
#[derive(Debug, Clone, PartialEq, Eq)]
pub struct PprofProfile {
    pub strings: StringTable,
    pub value_types: Vec<ValueType>,
    pub samples: Vec<Sample>,
    pub mappings: Vec<Mapping>,
    pub locations: Vec<Location>,
    pub functions: Vec<Function>,
    pub time_nanos: i64,
    pub duration_nanos: i64,
    pub period_type: ValueType,
    pub period: i64,
    pub drop_frames: u64,
    pub keep_frames: u64,
    pub comments: Vec<u64>,
    pub default_sample_type: u64,
}

/// The name under which the write-only encoder of earlier releases is known.
pub type ProfileEncoder = PprofProfile;

pub open spec fn sample_views(v: Seq<Sample>) -> Seq<SampleModel> {
    v.map_values(|s: Sample| s@)
}

pub open spec fn location_views(v: Seq<Location>) -> Seq<LocationModel> {
    v.map_values(|l: Location| l@)
}

impl PprofProfile {
    pub open spec fn view(&self) -> ProfileModel {
        ProfileModel {
            strings: self.strings.view(),
            value_types: self.value_types@,
            samples: sample_views(self.samples@),
            mappings: self.mappings@,
            locations: location_views(self.locations@),
            functions: self.functions@,
            time_nanos: self.time_nanos,
            duration_nanos: self.duration_nanos,
            period_type: self.period_type,
            period: self.period,
            drop_frames: self.drop_frames,
            keep_frames: self.keep_frames,
            comments: self.comments@,
            default_sample_type: self.default_sample_type,
        }
    }

    /// An empty profile whose string table holds only "" at index 0.
    pub fn new() -> (r: Self)
        ensures
            r@ == empty_profile(seq![Seq::<char>::empty()]),
    {
        let r = PprofProfile {
            strings: StringTable::new(),
            value_types: Vec::new(),
            samples: Vec::new(),
            mappings: Vec::new(),
            locations: Vec::new(),
            functions: Vec::new(),
            time_nanos: 0,
            duration_nanos: 0,
            period_type: ValueType { type_: 0, unit: 0 },
            period: 0,
            drop_frames: 0,
            keep_frames: 0,
            comments: Vec::new(),
            default_sample_type: 0,
        };
        assert(r@ =~= empty_profile(seq![Seq::<char>::empty()]));
        r
    }

    /// The raw (uncompressed) pprof protobuf encoding of this profile.
    pub fn encode(&self) -> (r: Vec<u8>)
        ensures
            r@ == encode_profile(self@),
    {
        let m = Ghost(self@);
        let mut buf: Vec<u8> = Vec::new();
        let ghost b0 = buf@;
        encode_repeated(&mut buf, 1, self.value_types.as_slice());
        assert(payloads(self.value_types@) =~= value_type_payloads(m@.value_types));
        let ghost acc = ld_fields_bytes(1, value_type_payloads(m@.value_types));
        assert(buf@ =~= b0 + acc);
        encode_repeated(&mut buf, 2, self.samples.as_slice());
        assert(payloads(self.samples@) =~= sample_payloads(m@.samples));
        proof { lemma_append_step(b0, acc, ld_fields_bytes(2, sample_payloads(m@.samples))); }
        let ghost acc = acc + ld_fields_bytes(2, sample_payloads(m@.samples));
        encode_repeated(&mut buf, 3, self.mappings.as_slice());
        assert(payloads(self.mappings@) =~= mapping_payloads(m@.mappings));
        proof { lemma_append_step(b0, acc, ld_fields_bytes(3, mapping_payloads(m@.mappings))); }
        let ghost acc = acc + ld_fields_bytes(3, mapping_payloads(m@.mappings));
        encode_repeated(&mut buf, 4, self.locations.as_slice());
        assert(payloads(self.locations@) =~= location_payloads(m@.locations));
        proof { lemma_append_step(b0, acc, ld_fields_bytes(4, location_payloads(m@.locations))); }
        let ghost acc = acc + ld_fields_bytes(4, location_payloads(m@.locations));
        encode_repeated(&mut buf, 5, self.functions.as_slice());
        assert(payloads(self.functions@) =~= function_payloads(m@.functions));
        proof { lemma_append_step(b0, acc, ld_fields_bytes(5, function_payloads(m@.functions))); }
        let ghost acc = acc + ld_fields_bytes(5, function_payloads(m@.functions));
        encode_strings(&mut buf, 6, self.strings.strings.as_slice());
        proof { lemma_append_step(b0, acc, string_fields_bytes(6, string_payloads(m@.strings))); }
        let ghost acc = acc + string_fields_bytes(6, string_payloads(m@.strings));
        encode_varint_field(&mut buf, 7, self.drop_frames);
        proof { lemma_append_step(b0, acc, varint_field_bytes(7, m@.drop_frames)); }
        let ghost acc = acc + varint_field_bytes(7, m@.drop_frames);
        encode_varint_field(&mut buf, 8, self.keep_frames);
        proof { lemma_append_step(b0, acc, varint_field_bytes(8, m@.keep_frames)); }
        let ghost acc = acc + varint_field_bytes(8, m@.keep_frames);
        encode_sint64_field(&mut buf, 9, self.time_nanos);
        proof { lemma_append_step(b0, acc, varint_field_bytes(9, m@.time_nanos as u64)); }
        let ghost acc = acc + varint_field_bytes(9, m@.time_nanos as u64);
        encode_sint64_field(&mut buf, 10, self.duration_nanos);
        proof { lemma_append_step(b0, acc, varint_field_bytes(10, m@.duration_nanos as u64)); }
        let ghost acc = acc + varint_field_bytes(10, m@.duration_nanos as u64);
        let mut inner: Vec<u8> = Vec::new();
        self.period_type.encode(&mut inner);
        assert(inner@ =~= encode_value_type(m@.period_type));
        encode_length_delimited(&mut buf, 11, inner.as_slice());
        proof { lemma_append_step(b0, acc, ld_field_bytes(11, encode_value_type(m@.period_type))); }
        let ghost acc = acc + ld_field_bytes(11, encode_value_type(m@.period_type));
        encode_sint64_field(&mut buf, 12, self.period);
        proof { lemma_append_step(b0, acc, varint_field_bytes(12, m@.period as u64)); }
        let ghost acc = acc + varint_field_bytes(12, m@.period as u64);
        encode_varint_fields(&mut buf, 13, self.comments.as_slice());
        proof { lemma_append_step(b0, acc, varint_fields_bytes(13, m@.comments)); }
        let ghost acc = acc + varint_fields_bytes(13, m@.comments);
        encode_varint_field(&mut buf, 14, self.default_sample_type);
        proof { lemma_append_step(b0, acc, varint_field_bytes(14, m@.default_sample_type)); }
        assert(b0 =~= Seq::<u8>::empty());
        assert(buf@ =~= encode_profile(m@));
        buf
    }
}

/// A profile with the given string table and every other field empty or zero.
pub open spec fn empty_profile(strings: Seq<Seq<char>>) -> ProfileModel {
    ProfileModel {
        strings,
        value_types: Seq::empty(),
        samples: Seq::empty(),
        mappings: Seq::empty(),
        locations: Seq::empty(),
        functions: Seq::empty(),
        time_nanos: 0,
        duration_nanos: 0,
        period_type: ValueType { type_: 0, unit: 0 },
        period: 0,
        drop_frames: 0,
        keep_frames: 0,
        comments: Seq::empty(),
        default_sample_type: 0,
    }
}


// ---------------------------------------------------------------------------
// Decoding, as specified field by field
// ---------------------------------------------------------------------------

pub open spec fn apply_value_type(acc: ValueType, f: WireField) -> Result<ValueType, DecodeError> {
    match f.value {
        WireValue::Varint(v) => if f.number == 1 {
            Ok(ValueType { type_: v, ..acc })
        } else if f.number == 2 {
            Ok(ValueType { unit: v, ..acc })
        } else {
            Ok(acc)
        },
        _ => Ok(acc),
    }
}

pub open spec fn value_type_step() -> spec_fn(ValueType, WireField) -> Result<ValueType, DecodeError> {
    |acc: ValueType, f: WireField| apply_value_type(acc, f)
}

pub open spec fn decode_value_type(s: Seq<u8>) -> Result<ValueType, DecodeError> {
    decode_fields(s, 0, ValueType { type_: 0, unit: 0 }, value_type_step())
}

pub open spec fn apply_line(acc: Line, f: WireField) -> Result<Line, DecodeError> {
    match f.value {
        WireValue::Varint(v) => if f.number == 1 {
            Ok(Line { function_id: v, ..acc })
        } else if f.number == 2 {
            Ok(Line { line: v as i64, ..acc })
        } else if f.number == 3 {
            Ok(Line { column: v as i64, ..acc })
        } else {
            Ok(acc)
        },
        _ => Ok(acc),
    }
}

pub open spec fn line_step() -> spec_fn(Line, WireField) -> Result<Line, DecodeError> {
    |acc: Line, f: WireField| apply_line(acc, f)
}

pub open spec fn decode_line(s: Seq<u8>) -> Result<Line, DecodeError> {
    decode_fields(s, 0, Line { function_id: 0, line: 0, column: 0 }, line_step())
}

pub open spec fn apply_location(acc: LocationModel, f: WireField) -> Result<LocationModel, DecodeError> {
    match f.value {
        WireValue::Varint(v) => if f.number == 1 {
            Ok(LocationModel { id: v, ..acc })
        } else if f.number == 2 {
            Ok(LocationModel { mapping_id: v, ..acc })
        } else if f.number == 3 {
            Ok(LocationModel { address: v, ..acc })
        } else if f.number == 5 {
            Ok(LocationModel { is_folded: v != 0, ..acc })
        } else {
            Ok(acc)
        },
        WireValue::Bytes(b) => if f.number == 4 {
            match decode_line(b) {
                Ok(l) => Ok(LocationModel { lines: acc.lines.push(l), ..acc }),
                Err(e) => Err(e),
            }
        } else {
            Ok(acc)
        },
        _ => Ok(acc),
    }
}

pub open spec fn location_step() -> spec_fn(LocationModel, WireField) -> Result<LocationModel, DecodeError> {
    |acc: LocationModel, f: WireField| apply_location(acc, f)
}

pub open spec fn decode_location(s: Seq<u8>) -> Result<LocationModel, DecodeError> {
    decode_fields(s, 0, empty_location(), location_step())
}

pub open spec fn apply_mapping(acc: Mapping, f: WireField) -> Result<Mapping, DecodeError> {
    match f.value {
        WireValue::Varint(v) => if f.number == 1 {
            Ok(Mapping { id: v, ..acc })
        } else if f.number == 2 {
            Ok(Mapping { memory_start: v, ..acc })
        } else if f.number == 3 {
            Ok(Mapping { memory_limit: v, ..acc })
        } else if f.number == 4 {
            Ok(Mapping { file_offset: v, ..acc })
        } else if f.number == 5 {
            Ok(Mapping { filename: v, ..acc })
        } else if f.number == 6 {
            Ok(Mapping { build_id: v, ..acc })
        } else if f.number == 7 {
            Ok(Mapping { has_functions: v != 0, ..acc })
        } else if f.number == 8 {
            Ok(Mapping { has_filenames: v != 0, ..acc })
        } else if f.number == 9 {
            Ok(Mapping { has_line_numbers: v != 0, ..acc })
        } else if f.number == 10 {
            Ok(Mapping { has_inline_frames: v != 0, ..acc })
        } else {
            Ok(acc)
        },
        _ => Ok(acc),
    }
}

pub open spec fn mapping_step() -> spec_fn(Mapping, WireField) -> Result<Mapping, DecodeError> {
    |acc: Mapping, f: WireField| apply_mapping(acc, f)
}

pub open spec fn decode_mapping(s: Seq<u8>) -> Result<Mapping, DecodeError> {
    decode_fields(s, 0, empty_mapping(), mapping_step())
}

pub open spec fn apply_function(acc: Function, f: WireField) -> Result<Function, DecodeError> {
    match f.value {
        WireValue::Varint(v) => if f.number == 1 {
            Ok(Function { id: v, ..acc })
        } else if f.number == 2 {
            Ok(Function { name: v, ..acc })
        } else if f.number == 3 {
            Ok(Function { system_name: v, ..acc })
        } else if f.number == 4 {
            Ok(Function { filename: v, ..acc })
        } else if f.number == 5 {
            Ok(Function { start_line: v as i64, ..acc })
        } else {
            Ok(acc)
        },
        _ => Ok(acc),
    }
}

pub open spec fn function_step() -> spec_fn(Function, WireField) -> Result<Function, DecodeError> {
    |acc: Function, f: WireField| apply_function(acc, f)
}

pub open spec fn decode_function(s: Seq<u8>) -> Result<Function, DecodeError> {
    decode_fields(
        s,
        0,
        Function { id: 0, name: 0, system_name: 0, filename: 0, start_line: 0 },
        function_step(),
    )
}

pub open spec fn apply_label(acc: Label, f: WireField) -> Result<Label, DecodeError> {
    match f.value {
        WireValue::Varint(v) => if f.number == 1 {
            Ok(Label { key: v, ..acc })
        } else if f.number == 2 {
            Ok(Label { str_index: v, ..acc })
        } else if f.number == 3 {
            Ok(Label { num: v as i64, ..acc })
        } else if f.number == 4 {
            Ok(Label { num_unit: v, ..acc })
        } else {
            Ok(acc)
        },
        _ => Ok(acc),
    }
}

pub open spec fn label_step() -> spec_fn(Label, WireField) -> Result<Label, DecodeError> {
    |acc: Label, f: WireField| apply_label(acc, f)
}

pub open spec fn decode_label(s: Seq<u8>) -> Result<Label, DecodeError> {
    decode_fields(s, 0, Label { key: 0, str_index: 0, num: 0, num_unit: 0 }, label_step())
}

pub open spec fn as_signed(values: Seq<u64>) -> Seq<i64> {
    values.map_values(|v: u64| v as i64)
}

pub open spec fn apply_sample(acc: SampleModel, f: WireField) -> Result<SampleModel, DecodeError> {
    match f.value {
        WireValue::Varint(v) => if f.number == 1 {
            Ok(SampleModel { location_ids: acc.location_ids.push(v), ..acc })
        } else if f.number == 2 {
            Ok(SampleModel { values: acc.values.push(v as i64), ..acc })
        } else {
            Ok(acc)
        },
        WireValue::Bytes(b) => if f.number == 1 {
            match packed_parse(b) {
                Ok(vs) => Ok(SampleModel { location_ids: acc.location_ids + vs, ..acc }),
                Err(e) => Err(e),
            }
        } else if f.number == 2 {
            match packed_parse(b) {
                Ok(vs) => Ok(SampleModel { values: acc.values + as_signed(vs), ..acc }),
                Err(e) => Err(e),
            }
        } else if f.number == 3 {
            match decode_label(b) {
                Ok(l) => Ok(SampleModel { labels: acc.labels.push(l), ..acc }),
                Err(e) => Err(e),
            }
        } else {
            Ok(acc)
        },
        _ => Ok(acc),
    }
}

pub open spec fn sample_step() -> spec_fn(SampleModel, WireField) -> Result<SampleModel, DecodeError> {
    |acc: SampleModel, f: WireField| apply_sample(acc, f)
}

pub open spec fn decode_sample(s: Seq<u8>) -> Result<SampleModel, DecodeError> {
    decode_fields(s, 0, empty_sample(), sample_step())
}

pub open spec fn apply_profile(acc: ProfileModel, f: WireField) -> Result<ProfileModel, DecodeError> {
    match f.value {
        WireValue::Varint(v) => if f.number == 7 {
            Ok(ProfileModel { drop_frames: v, ..acc })
        } else if f.number == 8 {
            Ok(ProfileModel { keep_frames: v, ..acc })
        } else if f.number == 9 {
            Ok(ProfileModel { time_nanos: v as i64, ..acc })
        } else if f.number == 10 {
            Ok(ProfileModel { duration_nanos: v as i64, ..acc })
        } else if f.number == 12 {
            Ok(ProfileModel { period: v as i64, ..acc })
        } else if f.number == 13 {
            Ok(ProfileModel { comments: acc.comments.push(v), ..acc })
        } else if f.number == 14 {
            Ok(ProfileModel { default_sample_type: v, ..acc })
        } else {
            Ok(acc)
        },
        WireValue::Bytes(b) => if f.number == 1 {
            match decode_value_type(b) {
                Ok(x) => Ok(ProfileModel { value_types: acc.value_types.push(x), ..acc }),
                Err(e) => Err(e),
            }
        } else if f.number == 2 {
            match decode_sample(b) {
                Ok(x) => Ok(ProfileModel { samples: acc.samples.push(x), ..acc }),
                Err(e) => Err(e),
            }
        } else if f.number == 3 {
            match decode_mapping(b) {
                Ok(x) => Ok(ProfileModel { mappings: acc.mappings.push(x), ..acc }),
                Err(e) => Err(e),
            }
        } else if f.number == 4 {
            match decode_location(b) {
                Ok(x) => Ok(ProfileModel { locations: acc.locations.push(x), ..acc }),
                Err(e) => Err(e),
            }
        } else if f.number == 5 {
            match decode_function(b) {
                Ok(x) => Ok(ProfileModel { functions: acc.functions.push(x), ..acc }),
                Err(e) => Err(e),
            }
        } else if f.number == 6 {
            if valid_utf8(b) {
                Ok(ProfileModel { strings: acc.strings.push(decode_utf8(b)), ..acc })
            } else {
                Err(DecodeError::InvalidUtf8)
            }
        } else if f.number == 11 {
            match decode_value_type(b) {
                Ok(x) => Ok(ProfileModel { period_type: x, ..acc }),
                Err(e) => Err(e),
            }
        } else if f.number == 13 {
            match packed_parse(b) {
                Ok(vs) => Ok(ProfileModel { comments: acc.comments + vs, ..acc }),
                Err(e) => Err(e),
            }
        } else {
            Ok(acc)
        },
        _ => Ok(acc),
    }
}

pub open spec fn profile_step() -> spec_fn(ProfileModel, WireField) -> Result<ProfileModel, DecodeError> {
    |acc: ProfileModel, f: WireField| apply_profile(acc, f)
}

/// Decodes a raw pprof protobuf; the string table must start with "".
pub open spec fn decode_profile(s: Seq<u8>) -> Result<ProfileModel, DecodeError> {
    match decode_fields(s, 0, empty_profile(Seq::empty()), profile_step()) {
        Err(e) => Err(e),
        Ok(m) => if m.strings.len() > 0 && m.strings[0].len() == 0 {
            Ok(m)
        } else {
            Err(DecodeError::InvalidStringTable)
        },
    }
}


// ---------------------------------------------------------------------------
// Decoders
// ---------------------------------------------------------------------------

impl ValueType {
    /// Decodes a `ValueType` message.
    pub fn decode(data: &[u8]) -> (r: Result<ValueType, DecodeError>)
        ensures
            r == decode_value_type(data@),
    {
        let mut value = ValueType { type_: 0, unit: 0 };
        let mut fields = Fields::new(data);
        loop
            invariant
                fields.wf(),
                fields.data == data,
                decode_value_type(data@) == decode_fields(
                    data@,
                    fields.offset as nat,
                    value,
                    value_type_step(),
                ),
            decreases data@.len() - fields.offset,
        {
            proof {
                reveal(decode_fields);
            }
            let field = match fields.next() {
                Err(e) => return Err(e),
                Ok(None) => return Ok(value),
                Ok(Some(field)) => field,
            };
            if let FieldValue::Varint(v) = field.value {
                if field.number == 1 {
                    value.type_ = v;
                } else if field.number == 2 {
                    value.unit = v;
                }
            }
        }
    }
}

impl Line {
    /// Decodes a `Line` message.
    pub fn decode(data: &[u8]) -> (r: Result<Line, DecodeError>)
        ensures
            r == decode_line(data@),
    {
        let mut line = Line { function_id: 0, line: 0, column: 0 };
        let mut fields = Fields::new(data);
        loop
            invariant
                fields.wf(),
                fields.data == data,
                decode_line(data@) == decode_fields(data@, fields.offset as nat, line, line_step()),
            decreases data@.len() - fields.offset,
        {
            proof {
                reveal(decode_fields);
            }
            let field = match fields.next() {
                Err(e) => return Err(e),
                Ok(None) => return Ok(line),
                Ok(Some(field)) => field,
            };
            if let FieldValue::Varint(v) = field.value {
                if field.number == 1 {
                    line.function_id = v;
                } else if field.number == 2 {
                    line.line = v as i64;
                } else if field.number == 3 {
                    line.column = v as i64;
                }
            }
        }
    }
}


impl Mapping {
    /// Decodes a `Mapping` message.
    pub fn decode(data: &[u8]) -> (r: Result<Mapping, DecodeError>)
        ensures
            r == decode_mapping(data@),
    {
        let mut mapping = Mapping {
            id: 0,
            memory_start: 0,
            memory_limit: 0,
            file_offset: 0,
            filename: 0,
            build_id: 0,
            has_functions: false,
            has_filenames: false,
            has_line_numbers: false,
            has_inline_frames: false,
        };
        let mut fields = Fields::new(data);
        loop
            invariant
                fields.wf(),
                fields.data == data,
                decode_mapping(data@) == decode_fields(data@, fields.offset as nat, mapping, mapping_step()),
            decreases data@.len() - fields.offset,
        {
            proof {
                reveal(decode_fields);
            }
            let field = match fields.next() {
                Err(e) => return Err(e),
                Ok(None) => return Ok(mapping),
                Ok(Some(field)) => field,
            };
            let value = match field.value {
                FieldValue::Varint(v) => v,
                _ => continue,
            };
            match field.number {
                1 => mapping.id = value,
                2 => mapping.memory_start = value,
                3 => mapping.memory_limit = value,
                4 => mapping.file_offset = value,
                5 => mapping.filename = value,
                6 => mapping.build_id = value,
                7 => mapping.has_functions = value != 0,
                8 => mapping.has_filenames = value != 0,
                9 => mapping.has_line_numbers = value != 0,
                10 => mapping.has_inline_frames = value != 0,
                _ => {},
            }
        }
    }
}

impl Function {
    /// Decodes a `Function` message.
    pub fn decode(data: &[u8]) -> (r: Result<Function, DecodeError>)
        ensures
            r == decode_function(data@),
    {
        let mut function = Function { id: 0, name: 0, system_name: 0, filename: 0, start_line: 0 };
        let mut fields = Fields::new(data);
        loop
            invariant
                fields.wf(),
                fields.data == data,
                decode_function(data@) == decode_fields(
                    data@,
                    fields.offset as nat,
                    function,
                    function_step(),
                ),
            decreases data@.len() - fields.offset,
        {
            proof {
                reveal(decode_fields);
            }
            let field = match fields.next() {
                Err(e) => return Err(e),
                Ok(None) => return Ok(function),
                Ok(Some(field)) => field,
            };
            let value = match field.value {
                FieldValue::Varint(v) => v,
                _ => continue,
            };
            match field.number {
                1 => function.id = value,
                2 => function.name = value,
                3 => function.system_name = value,
                4 => function.filename = value,
                5 => function.start_line = value as i64,
                _ => {},
            }
        }
    }
}

impl Label {
    /// Decodes a `Label` message.
    pub fn decode(data: &[u8]) -> (r: Result<Label, DecodeError>)
        ensures
            r == decode_label(data@),
    {
        let mut label = Label { key: 0, str_index: 0, num: 0, num_unit: 0 };
        let mut fields = Fields::new(data);
        loop
            invariant
                fields.wf(),
                fields.data == data,
                decode_label(data@) == decode_fields(data@, fields.offset as nat, label, label_step()),
            decreases data@.len() - fields.offset,
        {
            proof {
                reveal(decode_fields);
            }
            let field = match fields.next() {
                Err(e) => return Err(e),
                Ok(None) => return Ok(label),
                Ok(Some(field)) => field,
            };
            let value = match field.value {
                FieldValue::Varint(v) => v,
                _ => continue,
            };
            match field.number {
                1 => label.key = value,
                2 => label.str_index = value,
                3 => label.num = value as i64,
                4 => label.num_unit = value,
                _ => {},
            }
        }
    }
}

impl Location {
    /// Decodes a `Location` message.
    pub fn decode(data: &[u8]) -> (r: Result<Location, DecodeError>)
        ensures
            match decode_location(data@) {
                Ok(m) => r matches Ok(x) && x@ == m,
                Err(e) => r matches Err(x) && x == e,
            },
    {
        let mut location = Location { id: 0, mapping_id: 0, address: 0, lines: Vec::new(), is_folded: false };
        assert(location@ =~= empty_location());
        let mut fields = Fields::new(data);
        loop
            invariant
                fields.wf(),
                fields.data == data,
                decode_location(data@) == decode_fields(
                    data@,
                    fields.offset as nat,
                    location@,
                    location_step(),
                ),
            decreases data@.len() - fields.offset,
        {
            proof {
                reveal(decode_fields);
            }
            let field = match fields.next() {
                Err(e) => return Err(e),
                Ok(None) => return Ok(location),
                Ok(Some(field)) => field,
            };
            let ghost before = location@;
            match field.value {
                FieldValue::Varint(v) => {
                    if field.number == 1 {
                        location.id = v;
                    } else if field.number == 2 {
                        location.mapping_id = v;
                    } else if field.number == 3 {
                        location.address = v;
                    } else if field.number == 5 {
                        location.is_folded = v != 0;
                    }
                },
                FieldValue::Bytes(b) => {
                    if field.number == 4 {
                        match Line::decode(b) {
                            Ok(l) => location.lines.push(l),
                            Err(e) => return Err(e),
                        }
                    }
                },
                _ => {},
            }
            assert(apply_location(before, field.view()) matches Ok(x) && x =~= location@);
        }
    }
}

impl Sample {
    /// Decodes a `Sample` message; repeated scalars may be packed or not.
    pub fn decode(data: &[u8]) -> (r: Result<Sample, DecodeError>)
        ensures
            match decode_sample(data@) {
                Ok(m) => r matches Ok(x) && x@ == m,
                Err(e) => r matches Err(x) && x == e,
            },
    {
        let mut sample = Sample { location_ids: Vec::new(), values: Vec::new(), labels: Vec::new() };
        assert(sample@ =~= empty_sample());
        let mut fields = Fields::new(data);
        loop
            invariant
                fields.wf(),
                fields.data == data,
                decode_sample(data@) == decode_fields(data@, fields.offset as nat, sample@, sample_step()),
            decreases data@.len() - fields.offset,
        {
            proof {
                reveal(decode_fields);
            }
            let field = match fields.next() {
                Err(e) => return Err(e),
                Ok(None) => return Ok(sample),
                Ok(Some(field)) => field,
            };
            let ghost before = sample@;
            match field.value {
                FieldValue::Varint(v) => {
                    if field.number == 1 {
                        sample.location_ids.push(v);
                    } else if field.number == 2 {
                        sample.values.push(v as i64);
                    }
                },
                FieldValue::Bytes(b) => {
                    if field.number == 1 {
                        match decode_packed(b) {
                            Ok(vs) => {
                                let mut vs = vs;
                                sample.location_ids.append(&mut vs);
                            },
                            Err(e) => return Err(e),
                        }
                    } else if field.number == 2 {
                        match decode_packed(b) {
                            Ok(vs) => append_signed(&mut sample.values, &vs),
                            Err(e) => return Err(e),
                        }
                    } else if field.number == 3 {
                        match Label::decode(b) {
                            Ok(l) => sample.labels.push(l),
                            Err(e) => return Err(e),
                        }
                    }
                },
                _ => {},
            }
            assert(apply_sample(before, field.view()) matches Ok(x) && x =~= sample@);
        }
    }
}

/// Appends each value reinterpreted as a two's-complement `i64`.
fn append_signed(out: &mut Vec<i64>, values: &Vec<u64>)
    ensures
        final(out)@ == old(out)@ + as_signed(values@),
{
    let mut i: usize = 0;
    while i < values.len()
        invariant
            0 <= i <= values@.len(),
            out@ == old(out)@ + as_signed(values@.subrange(0, i as int)),
        decreases values@.len() - i,
    {
        out.push(values[i] as i64);
        assert(as_signed(values@.subrange(0, i + 1)) =~= as_signed(values@.subrange(0, i as int)).push(
            values@[i as int] as i64,
        ));
        assert(old(out)@ + as_signed(values@.subrange(0, i + 1)) =~= (old(out)@ + as_signed(
            values@.subrange(0, i as int),
        )).push(values@[i as int] as i64));
        i = i + 1;
    }
    assert(values@.subrange(0, values@.len() as int) =~= values@);
}


/// `std::str::from_utf8`, owned: the string whose UTF-8 encoding is `bytes`,
/// or `None` when `bytes` is not valid UTF-8.
#[verifier::external_body]
fn utf8_string(bytes: &[u8]) -> (r: Option<String>)
    ensures
        match r {
            Some(s) => valid_utf8(bytes@) && encode_utf8(s@) == bytes@,
            None => !valid_utf8(bytes@),
        },
{
    match std::str::from_utf8(bytes) {
        Ok(s) => Some(s.to_owned()),
        Err(_) => None,
    }
}

/// Folds one decoded top-level field into `profile`.
fn apply_profile_field(profile: &mut PprofProfile, field: Field) -> (r: Result<(), DecodeError>)
    ensures
        match apply_profile(old(profile)@, field.view()) {
            Ok(m) => r is Ok && final(profile)@ == m,
            Err(e) => r == Err::<(), DecodeError>(e),
        },
{
    let ghost before = profile@;
    match field.value {
        FieldValue::Varint(v) => {
            if field.number == 7 {
                profile.drop_frames = v;
            } else if field.number == 8 {
                profile.keep_frames = v;
            } else if field.number == 9 {
                profile.time_nanos = v as i64;
            } else if field.number == 10 {
                profile.duration_nanos = v as i64;
            } else if field.number == 12 {
                profile.period = v as i64;
            } else if field.number == 13 {
                profile.comments.push(v);
            } else if field.number == 14 {
                profile.default_sample_type = v;
            }
        },
        FieldValue::Bytes(b) => {
            if field.number == 1 {
                match ValueType::decode(b) {
                    Ok(x) => profile.value_types.push(x),
                    Err(e) => return Err(e),
                }
            } else if field.number == 2 {
                match Sample::decode(b) {
                    Ok(x) => {
                        profile.samples.push(x);
                        assert(sample_views(profile.samples@) =~= before.samples.push(x@));
                    },
                    Err(e) => return Err(e),
                }
            } else if field.number == 3 {
                match Mapping::decode(b) {
                    Ok(x) => profile.mappings.push(x),
                    Err(e) => return Err(e),
                }
            } else if field.number == 4 {
                match Location::decode(b) {
                    Ok(x) => {
                        profile.locations.push(x);
                        assert(location_views(profile.locations@) =~= before.locations.push(x@));
                    },
                    Err(e) => return Err(e),
                }
            } else if field.number == 5 {
                match Function::decode(b) {
                    Ok(x) => profile.functions.push(x),
                    Err(e) => return Err(e),
                }
            } else if field.number == 6 {
                match utf8_string(b) {
                    Some(x) => {
                        proof {
                            vstd::utf8::encode_utf8_decode_utf8(x@);
                        }
                        profile.strings.strings.push(x);
                        assert(profile.strings.view() =~= before.strings.push(decode_utf8(b@)));
                    },
                    None => return Err(DecodeError::InvalidUtf8),
                }
            } else if field.number == 11 {
                match ValueType::decode(b) {
                    Ok(x) => profile.period_type = x,
                    Err(e) => return Err(e),
                }
            } else if field.number == 13 {
                match decode_packed(b) {
                    Ok(vs) => {
                        let mut vs = vs;
                        profile.comments.append(&mut vs);
                    },
                    Err(e) => return Err(e),
                }
            }
        },
        _ => {},
    }
    assert(apply_profile(before, field.view()) matches Ok(x) && x =~= profile@);
    Ok(())
}

impl PprofProfile {
    /// Decodes a raw (uncompressed) pprof protobuf.
    pub fn decode(data: &[u8]) -> (r: Result<Self, DecodeError>)
        ensures
            match decode_profile(data@) {
                Ok(m) => r matches Ok(x) && x@ == m,
                Err(e) => r matches Err(x) && x == e,
            },
    {
        let mut profile = PprofProfile::new();
        profile.strings = StringTable { strings: Vec::new() };
        assert(profile@ =~= empty_profile(Seq::empty()));
        let mut fields = Fields::new(data);
        loop
            invariant
                fields.wf(),
                fields.data == data,
                decode_fields(data@, 0, empty_profile(Seq::empty()), profile_step()) == decode_fields(
                    data@,
                    fields.offset as nat,
                    profile@,
                    profile_step(),
                ),
            ensures
                decode_fields(data@, 0, empty_profile(Seq::empty()), profile_step()) == Ok::<
                    ProfileModel,
                    DecodeError,
                >(profile@),
            decreases data@.len() - fields.offset,
        {
            proof {
                reveal(decode_fields);
            }
            let field = match fields.next() {
                Err(e) => return Err(e),
                Ok(None) => break,
                Ok(Some(field)) => field,
            };
            match apply_profile_field(&mut profile, field) {
                Ok(()) => {},
                Err(e) => return Err(e),
            }
        }
        let ghost m = profile@;
        assert(m.strings.len() == profile.strings.strings@.len());
        assert(m.strings.len() > 0 ==> m.strings[0] == profile.strings.strings@[0]@);
        let strings = StringTable::from_strings(profile.strings.strings);
        match strings {
            Ok(t) => {
                profile.strings = t;
                assert(profile@ =~= m);
                Ok(profile)
            },
            Err(e) => Err(e),
        }
    }
}

} // verus!
