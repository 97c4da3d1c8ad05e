use std::collections::HashMap;

use pprofessor::encode::build_proto;
use pprofessor::{LoadedImage, PprofProfile, Sample, StackFrame, SymbolicatedProfile};

fn dummy_profile() -> SymbolicatedProfile {
    let mut frames = HashMap::new();
    frames.insert(
        0x1000u64,
        StackFrame {
            address: 0x1000,
            function: "leaf_fn".to_string(),
            file: "lib.rs".to_string(),
            line: 42,
        },
    );
    frames.insert(
        0x2000u64,
        StackFrame {
            address: 0x2000,
            function: "main".to_string(),
            file: "main.rs".to_string(),
            line: 10,
        },
    );

    let mut threads = HashMap::new();
    threads.insert(1u64, "main".to_string());

    SymbolicatedProfile {
        images: Vec::new(),
        frames,
        threads,
        samples: vec![Sample {
            thread_id: 1,
            stack: vec![0x1000, 0x2000],
            count: 5,
            timestamp_nanos: Some(123_456_789),
        }],
        start_time_unix_nanos: 1_700_000_000_000_000_000,
        duration_nanos: 1_000_000_000,
        freq_hz: 99,
    }
}

fn string(p: &PprofProfile, i: u64) -> String {
    p.strings.strings[i as usize].clone()
}

#[test]
fn test_build_proto_nonempty() {
    let profile = dummy_profile();
    let proto = build_proto(&profile, &Vec::new());
    assert!(!proto.is_empty());
    // First byte should be field 1, wire type 2 (0x0a) — sample_type
    assert_eq!(proto[0], 0x0a);
}

#[test]
fn test_build_proto_includes_timestamp_label() {
    let proto = build_proto(&dummy_profile(), &Vec::new());
    assert!(proto
        .windows(b"pprofessor::timestamp".len())
        .any(|window| window == b"pprofessor::timestamp"));
    assert!(proto
        .windows(b"nanoseconds".len())
        .any(|window| window == b"nanoseconds"));
}

#[test]
fn encoded_profile_decodes_to_the_expected_tables() {
    let proto = dummy_profile().to_pprof(&Vec::new());
    let p = PprofProfile::decode(&proto).unwrap();
    assert_eq!(p.value_types.len(), 1);
    assert_eq!(string(&p, p.value_types[0].type_), "samples");
    assert_eq!(string(&p, p.value_types[0].unit), "count");
    assert_eq!(string(&p, p.period_type.type_), "cpu");
    assert_eq!(string(&p, p.period_type.unit), "nanoseconds");
    assert_eq!(p.period, 1_000_000_000 / 99);
    assert_eq!(p.duration_nanos, 1_000_000_000);
    assert_eq!(p.time_nanos, 1_700_000_000_000_000_000);
    assert_eq!(p.functions.len(), 2);
    assert_eq!(p.locations.len(), 2);
    assert_eq!(string(&p, p.functions[0].name), "leaf_fn");
    assert_eq!(string(&p, p.functions[1].filename), "main.rs");
    assert_eq!(p.locations[0].address, 0x1000);
    assert_eq!(p.locations[0].lines[0].line, 42);
    assert_eq!(p.locations[1].lines[0].function_id, 2);
    assert_eq!(p.samples.len(), 1);
    let s = &p.samples[0];
    assert_eq!(s.location_ids, vec![1, 2]);
    assert_eq!(s.values, vec![5]);
    assert_eq!(s.labels.len(), 3);
    assert_eq!(string(&p, s.labels[0].key), "thread_id");
    assert_eq!(s.labels[0].num, 1);
    assert_eq!(string(&p, s.labels[1].key), "thread_name");
    assert_eq!(string(&p, s.labels[1].str_index), "main");
    assert_eq!(string(&p, s.labels[2].key), "pprofessor::timestamp");
    assert_eq!(s.labels[2].num, 123_456_789);
    assert_eq!(string(&p, s.labels[2].num_unit), "nanoseconds");
}

#[test]
fn addresses_share_one_location_and_unknown_ones_are_left_out() {
    let mut profile = dummy_profile();
    profile.samples = vec![
        Sample { thread_id: 7, stack: vec![0x2000, 0x9999, 0x2000], count: 1, timestamp_nanos: None },
        Sample { thread_id: 7, stack: vec![0x9999], count: 4, timestamp_nanos: Some(u64::MAX) },
        Sample { thread_id: 1, stack: vec![0x1000, 0x2000], count: 2, timestamp_nanos: Some(u64::MAX) },
    ];
    let p = PprofProfile::decode(&build_proto(&profile, &Vec::new())).unwrap();
    assert_eq!(p.locations.len(), 2);
    assert_eq!(p.locations[0].address, 0x2000);
    assert_eq!(p.samples.len(), 2);
    assert_eq!(p.samples[0].location_ids, vec![1, 1]);
    // Thread 7 has no name: only its id label.
    assert_eq!(p.samples[0].labels.len(), 1);
    assert_eq!(p.samples[1].location_ids, vec![2, 1]);
    assert_eq!(p.samples[1].labels[2].num, i64::MAX);
}

#[test]
fn mappings_are_sorted_by_load_address_and_end_at_the_next_image() {
    let mut profile = dummy_profile();
    profile.images = vec![
        LoadedImage { load_address: 0x3000, path: "/lib/c.so".to_string() },
        LoadedImage { load_address: 0x1000, path: "/bin/a".to_string() },
        LoadedImage { load_address: 0x1800, path: "/lib/b.so".to_string() },
    ];
    let sizes = vec![Some(0x500), None, None];
    let p = PprofProfile::decode(&build_proto(&profile, &sizes)).unwrap();
    assert_eq!(p.mappings.len(), 3);
    assert_eq!(p.mappings.iter().map(|m| m.memory_start).collect::<Vec<_>>(), vec![0x1000, 0x1800, 0x3000]);
    assert_eq!(p.mappings.iter().map(|m| m.memory_limit).collect::<Vec<_>>(), vec![0x1800, 0x3000, 0x3500]);
    assert_eq!(p.mappings.iter().map(|m| m.id).collect::<Vec<_>>(), vec![1, 2, 3]);
    assert_eq!(string(&p, p.mappings[0].filename), "/bin/a");
    // 0x1000 lies in the first mapping, 0x2000 in the second.
    assert_eq!(p.locations[0].mapping_id, 1);
    assert_eq!(p.locations[1].mapping_id, 2);
}

#[test]
fn the_last_mapping_without_a_size_is_one_byte_long() {
    let mut profile = dummy_profile();
    profile.images = vec![LoadedImage { load_address: u64::MAX, path: "/x".to_string() }];
    let p = PprofProfile::decode(&build_proto(&profile, &vec![None])).unwrap();
    assert_eq!(p.mappings[0].memory_limit, u64::MAX);
    profile.images[0].load_address = 0x10;
    let p = PprofProfile::decode(&build_proto(&profile, &vec![])).unwrap();
    assert_eq!(p.mappings[0].memory_limit, 0x11);
    assert_eq!(p.locations[0].mapping_id, 1);
}
