use pprofessor::pprof::{Function, Label, Line, Location, Mapping, PprofProfile, ProfileEncoder, Sample, StringTable, ValueType};
use pprofessor::wire::{encode_varint, read_varint, DecodeError};

#[test]
fn test_string_table_empty_at_zero() {
    let st = StringTable::new();
    assert_eq!(st.strings[0], "");
}

#[test]
fn test_intern_deduplication() {
    let mut st = StringTable::new();
    let a = st.intern("hello");
    let b = st.intern("hello");
    assert_eq!(a, b);
}

#[test]
fn test_encode_nonempty() {
    let mut enc = ProfileEncoder::new();
    let samples_str = enc.strings.intern("samples");
    let count_str = enc.strings.intern("count");
    enc.value_types.push(ValueType { type_: samples_str, unit: count_str });
    enc.period_type = ValueType { type_: samples_str, unit: count_str };
    enc.period = 10_000_000;
    enc.time_nanos = 1_000_000_000;
    enc.duration_nanos = 2_000_000_000;
    let buf = enc.encode();
    assert!(!buf.is_empty());
    assert_eq!(buf[0], 0x0a);
}

#[test]
fn test_encodes_mapping_and_location_identity() {
    let mut enc = ProfileEncoder::new();
    let filename = enc.strings.intern("/tmp/example");
    let build_id = enc.strings.intern("ABCDEF");
    enc.mappings.push(Mapping {
        id: 7,
        memory_start: 0x1000,
        memory_limit: 0x2000,
        file_offset: 0,
        filename,
        build_id,
        ..Mapping::default()
    });
    enc.locations.push(Location { id: 9, mapping_id: 7, address: 0x1234, lines: Vec::new(), ..Location::default() });

    let bytes = enc.encode();
    assert!(bytes.windows(2).any(|window| window == [0x10, 0x07]));
    assert!(bytes.windows(3).any(|window| window == [0x18, 0xb4, 0x24]));
}

#[test]
fn protobuf_round_trip_preserves_the_canonical_profile_model() {
    let mut profile = PprofProfile::new();
    let samples = profile.strings.intern("samples");
    let count = profile.strings.intern("count");
    let function_name = profile.strings.intern("work");
    let filename = profile.strings.intern("src/work.rs");
    let label_key = profile.strings.intern("thread");
    let label_value = profile.strings.intern("main");

    profile.value_types.push(ValueType { type_: samples, unit: count });
    profile.samples.push(Sample {
        location_ids: vec![11],
        values: vec![7],
        labels: vec![Label { key: label_key, str_index: label_value, num: 0, num_unit: 0 }],
    });
    profile.mappings.push(Mapping {
        id: 3,
        memory_start: 0x1000,
        memory_limit: 0x2000,
        file_offset: 0,
        filename,
        build_id: 0,
        has_functions: true,
        has_filenames: true,
        has_line_numbers: true,
        has_inline_frames: true,
    });
    profile.locations.push(Location {
        id: 11,
        mapping_id: 3,
        address: 0x1234,
        lines: vec![Line { function_id: 5, line: 42, column: 9 }],
        is_folded: true,
    });
    profile.functions.push(Function { id: 5, name: function_name, system_name: function_name, filename, start_line: 40 });
    profile.drop_frames = function_name;
    profile.keep_frames = filename;
    profile.time_nanos = 1_000;
    profile.duration_nanos = 2_000;
    profile.period_type = ValueType { type_: samples, unit: count };
    profile.period = 10;
    profile.comments = vec![label_value];
    profile.default_sample_type = samples;

    let encoded = profile.encode();
    let decoded = PprofProfile::decode(&encoded).unwrap();

    assert_eq!(decoded, profile);
}

#[test]
fn varint_round_trips_at_the_boundaries() {
    for value in [0u64, 1, 127, 128, 300, 16_383, 16_384, u64::MAX] {
        let mut buf = Vec::new();
        encode_varint(&mut buf, value);
        buf.push(0xff);
        let mut offset = 0usize;
        assert_eq!(read_varint(&buf, &mut offset), Ok(value));
        assert_eq!(offset, buf.len() - 1);
    }
    let mut buf = Vec::new();
    encode_varint(&mut buf, 300);
    assert_eq!(buf, vec![0xac, 0x02]);
}

#[test]
fn truncated_varint_is_rejected_without_advancing() {
    let mut offset = 0usize;
    assert_eq!(read_varint(&[0x80, 0x80], &mut offset), Err(DecodeError::TruncatedVarint));
    assert_eq!(offset, 0);
    let mut offset = 0usize;
    assert_eq!(read_varint(&[0xff; 11], &mut offset), Err(DecodeError::VarintOverflow));
}

#[test]
fn decoding_rejects_a_string_table_without_the_empty_string_first() {
    let mut profile = PprofProfile::new();
    profile.strings = StringTable { strings: vec!["x".to_string()] };
    let encoded = profile.encode();
    assert_eq!(PprofProfile::decode(&encoded), Err(DecodeError::InvalidStringTable));
}

#[test]
fn decoding_rejects_truncated_fields() {
    // Field 6 (string table) announcing 5 bytes but carrying 2.
    assert_eq!(PprofProfile::decode(&[0x32, 0x05, b'a', b'b']), Err(DecodeError::TruncatedField));
    // Field number zero.
    assert_eq!(PprofProfile::decode(&[0x00, 0x01]), Err(DecodeError::FieldNumberZero));
}

#[test]
fn zero_comments_survive_a_round_trip() {
    let mut profile = PprofProfile::new();
    profile.comments = vec![0, 7, 0];

    let decoded = PprofProfile::decode(&profile.encode()).unwrap();

    assert_eq!(decoded.comments, [0, 7, 0]);
    assert_eq!(decoded, profile);
}
