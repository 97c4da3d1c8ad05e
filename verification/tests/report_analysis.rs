use pprofessor::pprof::{Function, Line, Location, ProfileEncoder, Sample, ValueType};
use pprofessor::report::call_tree::CallTree;
use pprofessor::report::{
    decompress_if_needed, profile_string, sample_index, source_location, value_scale, FrameStat, ObservationFacts, ProfileReport,
    ReportError, ReportFrame, StackStat, ValueScale,
};
use pprofessor::text::{markdown_cell, markdown_code, strip_markdown_code, hex_address, format_i64};
use pprofessor::PprofProfile;
use std::io::Write;

fn encoded_profile() -> Vec<u8> {
    let mut profile = ProfileEncoder::new();
    let samples = profile.strings.intern("samples");
    let count = profile.strings.intern("count");
    let cpu = profile.strings.intern("cpu");
    let nanoseconds = profile.strings.intern("nanoseconds");
    let source = profile.strings.intern("src/work.rs");

    profile.value_types = vec![ValueType { type_: samples, unit: count }, ValueType { type_: cpu, unit: nanoseconds }];
    profile.duration_nanos = 2_000_000_000;
    profile.period = 10_000_000;

    for (id, name, line) in [(1, "main", 10), (2, "worker", 20), (3, "hot_loop", 30), (4, "cold_path", 40), (5, "other", 50)] {
        let name = profile.strings.intern(name);
        profile.functions.push(Function { id, name, system_name: name, filename: source, start_line: line });
        profile.locations.push(Location {
            id,
            mapping_id: 0,
            address: id * 0x1000,
            lines: vec![Line { function_id: id, line, ..Line::default() }],
            ..Location::default()
        });
    }

    profile.samples = vec![
        Sample { location_ids: vec![3, 2, 1], values: vec![7, 70], labels: vec![] },
        Sample { location_ids: vec![4, 2, 1], values: vec![2, 20], labels: vec![] },
        Sample { location_ids: vec![5, 1], values: vec![1, 10], labels: vec![] },
    ];
    profile.encode()
}

#[test]
fn attributes_flat_and_cumulative_costs_to_hot_frames() {
    let report = ProfileReport::from_pprof(&encoded_profile(), None).unwrap();

    assert_eq!(report.sample_type(), ("cpu", "nanoseconds"));
    assert_eq!(report.total_value(), 100);
    assert_eq!(report.top_frames()[0].function, "hot_loop");
    assert_eq!(report.top_frames()[0].flat, 70);

    let worker = report.top_frames().iter().find(|frame| frame.function == "worker").unwrap();
    assert_eq!(worker.flat, 0);
    assert_eq!(worker.cumulative, 90);
}

#[test]
fn analyzes_the_same_canonical_model_used_for_encoding() {
    let profile = PprofProfile::decode(&encoded_profile()).unwrap();

    let report = ProfileReport::from_profile(&profile, None).unwrap();

    assert_eq!(report.sample_type(), ("cpu", "nanoseconds"));
    assert_eq!(report.total_value(), 100);
    assert_eq!(report.top_frames()[0].function, "hot_loop");
    assert_eq!(report.top_stacks()[0].value, 70);
}

#[test]
fn ranks_complete_stacks_in_root_to_leaf_order() {
    let report = ProfileReport::from_pprof(&encoded_profile(), None).unwrap();

    let hottest = &report.top_stacks()[0];
    assert_eq!(hottest.value, 70);
    assert_eq!(hottest.frames.iter().map(|frame| frame.function.as_str()).collect::<Vec<_>>(), ["main", "worker", "hot_loop"]);
}

#[test]
fn reads_gzip_compressed_pprof_profiles() {
    let mut gzip = flate2::write::GzEncoder::new(Vec::new(), flate2::Compression::default());
    gzip.write_all(&encoded_profile()).unwrap();
    let gzip = gzip.finish().unwrap();

    let report = ProfileReport::from_pprof(&gzip, Some("samples")).unwrap();

    assert_eq!(report.sample_type(), ("samples", "count"));
    assert_eq!(report.total_value(), 10);
}

#[test]
fn honors_the_profiles_default_sample_type() {
    let mut profile = encoded_profile();
    profile.extend_from_slice(&[14 << 3, 1]);

    let report = ProfileReport::from_pprof(&profile, None).unwrap();

    assert_eq!(report.sample_type(), ("samples", "count"));
    assert_eq!(report.total_value(), 10);
}

#[test]
fn preserves_pprof_inline_frame_order() {
    let mut profile = ProfileEncoder::new();
    let samples = profile.strings.intern("samples");
    let count = profile.strings.intern("count");
    let source = profile.strings.intern("inline.rs");
    profile.value_types.push(ValueType { type_: samples, unit: count });
    for (id, name) in [(1, "main"), (2, "outer"), (3, "inlined_leaf")] {
        let name = profile.strings.intern(name);
        profile.functions.push(Function { id, name, system_name: name, filename: source, start_line: 0 });
    }
    profile.locations = vec![
        Location { id: 1, mapping_id: 0, address: 0x1000, lines: vec![Line { function_id: 1, line: 10, ..Line::default() }], ..Location::default() },
        Location {
            id: 2,
            mapping_id: 0,
            address: 0x2000,
            lines: vec![Line { function_id: 3, line: 30, ..Line::default() }, Line { function_id: 2, line: 20, ..Line::default() }],
            ..Location::default()
        },
    ];
    profile.samples.push(Sample { location_ids: vec![2, 1], values: vec![10], labels: vec![] });

    let report = ProfileReport::from_pprof(&profile.encode(), None).unwrap();

    assert_eq!(
        report.top_stacks()[0].frames.iter().map(|frame| frame.function.as_str()).collect::<Vec<_>>(),
        ["main", "outer", "inlined_leaf"]
    );
    assert_eq!(report.top_frames()[0].function, "inlined_leaf");
}

#[test]
fn counts_a_recursive_function_once_per_sample_for_cumulative_cost() {
    let mut profile = ProfileEncoder::new();
    let samples = profile.strings.intern("samples");
    let count = profile.strings.intern("count");
    let source = profile.strings.intern("recursive.rs");
    let main = profile.strings.intern("main");
    let recurse = profile.strings.intern("recurse");
    profile.value_types.push(ValueType { type_: samples, unit: count });
    profile.functions = vec![
        Function { id: 1, name: main, system_name: main, filename: source, start_line: 0 },
        Function { id: 2, name: recurse, system_name: recurse, filename: source, start_line: 0 },
    ];
    profile.locations = vec![
        Location { id: 1, mapping_id: 0, address: 0x1000, lines: vec![Line { function_id: 1, line: 10, ..Line::default() }], ..Location::default() },
        Location { id: 2, mapping_id: 0, address: 0x2000, lines: vec![Line { function_id: 2, line: 20, ..Line::default() }], ..Location::default() },
        Location { id: 3, mapping_id: 0, address: 0x3000, lines: vec![Line { function_id: 2, line: 21, ..Line::default() }], ..Location::default() },
    ];
    profile.samples.push(Sample { location_ids: vec![3, 2, 1], values: vec![10], labels: vec![] });

    let report = ProfileReport::from_pprof(&profile.encode(), None).unwrap();
    let recurse = report.top_frames().iter().find(|frame| frame.function == "recurse").unwrap();

    assert_eq!(recurse.flat, 10);
    assert_eq!(recurse.cumulative, 10);
}

#[test]
fn sample_types_are_chosen_by_index_name_or_default() {
    let profile = PprofProfile::decode(&encoded_profile()).unwrap();
    assert_eq!(sample_index(&profile, Some("0")), Ok(0));
    assert_eq!(sample_index(&profile, Some("+1")), Ok(1));
    assert_eq!(sample_index(&profile, Some("cpu")), Ok(1));
    assert_eq!(sample_index(&profile, None), Ok(1));
    assert_eq!(sample_index(&profile, Some("5")), Err(ReportError::IndexOutOfRange { index: 5, len: 2 }));
    match sample_index(&profile, Some("wall")) {
        Err(ReportError::UnknownSampleType { requested, available }) => {
            assert_eq!(requested, "wall");
            assert_eq!(available, vec!["samples".to_string(), "cpu".to_string()]);
        }
        other => panic!("unexpected {other:?}"),
    }
    let empty = PprofProfile::new();
    assert_eq!(sample_index(&empty, None), Err(ReportError::NoSampleTypes));
    assert!(matches!(ProfileReport::from_profile(&empty, None), Err(ReportError::NoSampleTypes)));
}

#[test]
fn locations_without_lines_become_address_frames() {
    let mut profile = ProfileEncoder::new();
    let samples = profile.strings.intern("samples");
    let count = profile.strings.intern("count");
    profile.value_types.push(ValueType { type_: samples, unit: count });
    profile.locations.push(Location { id: 1, mapping_id: 0, address: 0xabc, lines: vec![], ..Location::default() });
    profile.samples.push(Sample { location_ids: vec![1, 99], values: vec![-4], labels: vec![] });
    let report = ProfileReport::from_profile(&profile, None).unwrap();
    assert_eq!(report.total_value(), 4);
    assert_eq!(report.top_frames().len(), 1);
    assert_eq!(report.top_frames()[0].function, "0x0000000000000abc");
    assert_eq!(report.top_frames()[0].flat, -4);
    assert_eq!(report.top_stacks()[0].value, -4);
    assert_eq!(report.sample_records(), 1);
}

#[test]
fn invalid_gzip_and_invalid_protobuf_are_reported() {
    assert!(matches!(ProfileReport::from_pprof(&[0x1f, 0x8b, 0x00], None), Err(ReportError::Gzip)));
    assert!(matches!(ProfileReport::from_pprof(&[0x00, 0x00], None), Err(ReportError::Decode(_))));
    assert_eq!(decompress_if_needed(&[1, 2, 3]).unwrap(), vec![1, 2, 3]);
}

#[test]
fn profile_strings_past_the_table_are_empty() {
    let profile = PprofProfile::decode(&encoded_profile()).unwrap();
    assert_eq!(profile_string(&profile, 3), "cpu");
    assert_eq!(profile_string(&profile, 999), "");
}

#[test]
fn markdown_helpers_escape_their_input() {
    assert_eq!(markdown_code("hot_loop"), "`hot_loop`");
    assert_eq!(markdown_code("a`b"), "`` a`b ``");
    assert_eq!(markdown_cell("a|b\\c\nd"), "a\\|b\\\\c d");
    assert_eq!(strip_markdown_code("`main` → `worker`"), "main → worker");
    assert_eq!(hex_address(0x7fff_1234_5678), "0x00007fff12345678");
    assert_eq!(format_i64(-42), "-42");
    assert_eq!(format_i64(i64::MIN), "-9223372036854775808");
    assert_eq!(format_i64(0), "0");
}

fn stat(file: &str, line: i64) -> FrameStat {
    FrameStat { function: "f".to_string(), file: file.to_string(), line, flat: 0, cumulative: 0 }
}

#[test]
fn source_locations_show_the_file_and_a_nonzero_line() {
    assert_eq!(source_location(&stat("", 12)), "");
    assert_eq!(source_location(&stat("src/lib.rs", 0)), "src/lib.rs");
    assert_eq!(source_location(&stat("src/lib.rs", 42)), "src/lib.rs:42");
    assert_eq!(source_location(&stat("a.rs", -3)), "a.rs:-3");
}

#[test]
fn values_are_scaled_by_unit_and_magnitude() {
    assert_eq!(value_scale(1_500_000_000, "nanoseconds"), ValueScale::Seconds);
    assert_eq!(value_scale(-2_000_000, "NS"), ValueScale::Milliseconds);
    assert_eq!(value_scale(1_000, "Nanosecond"), ValueScale::Microseconds);
    assert_eq!(value_scale(999, "ns"), ValueScale::Nanoseconds);
    assert_eq!(value_scale(i64::MIN, "ns"), ValueScale::Seconds);
    assert_eq!(value_scale(1 << 30, "bytes"), ValueScale::GiB);
    assert_eq!(value_scale(1 << 20, "Byte"), ValueScale::MiB);
    assert_eq!(value_scale(1024, "bytes"), ValueScale::KiB);
    assert_eq!(value_scale(1023, "bytes"), ValueScale::Bytes);
    assert_eq!(value_scale(5, ""), ValueScale::Plain);
    assert_eq!(value_scale(5, "Samples"), ValueScale::Plain);
    assert_eq!(value_scale(5, "objects"), ValueScale::Plain);
    assert_eq!(value_scale(5, "widgets"), ValueScale::Other);
}

#[test]
fn key_observations_name_the_hotspot_the_bottleneck_and_the_top_stacks() {
    let report = ProfileReport::from_pprof(&encoded_profile(), None).unwrap();
    let names: Vec<&str> = report.top_frames().iter().map(|f| f.function.as_str()).collect();
    assert_eq!(names, ["hot_loop", "cold_path", "other", "main", "worker"]);
    assert_eq!(
        report.observation_facts(10),
        ObservationFacts { hotspot: Some(0), bottleneck: Some(4), top_stack_count: 3, top_stack_value: 100 }
    );
    assert_eq!(report.observation_facts(0).top_stack_count, 1);
    assert_eq!(report.observation_facts(0).top_stack_value, 70);
    assert_eq!(report.observation_facts(2).top_stack_value, 90);
}

#[test]
fn cumulative_ranking_puts_the_widest_callers_first() {
    let report = ProfileReport::from_pprof(&encoded_profile(), None).unwrap();
    let ranked = report.frames_by_cumulative();
    let names: Vec<&str> = ranked.iter().map(|f| f.function.as_str()).collect();
    assert_eq!(names, ["main", "worker", "hot_loop", "cold_path", "other"]);
}

fn rframe(function: &str, line: i64) -> ReportFrame {
    ReportFrame { function: function.to_string(), file: "src/work.rs".to_string(), line }
}

fn names(tree: &CallTree, nodes: &[usize]) -> Vec<String> {
    nodes.iter().map(|&node| tree.frame(node).function.clone()).collect()
}

fn node_named(tree: &CallTree, parent: Option<usize>, function: &str) -> usize {
    tree.children(parent).into_iter().find(|&node| tree.frame(node).function == function).unwrap()
}

#[test]
fn call_tree_follows_the_ranked_stacks_from_the_root() {
    let report = ProfileReport::from_pprof(&encoded_profile(), None).unwrap();
    let tree = report.call_tree();

    assert_eq!(tree.root_value(), 100);
    assert_eq!(tree.root_self_value(), 0);
    assert_eq!(tree.len(), 5);

    let main = node_named(&tree, None, "main");
    assert_eq!(names(&tree, &tree.ranked_children(None)), ["main"]);
    assert_eq!((tree.value(main), tree.self_value(main)), (100, 0));

    assert_eq!(names(&tree, &tree.ranked_children(Some(main))), ["worker", "other"]);
    let worker = node_named(&tree, Some(main), "worker");
    let other = node_named(&tree, Some(main), "other");
    assert_eq!((tree.value(worker), tree.self_value(worker)), (90, 0));
    assert_eq!((tree.value(other), tree.self_value(other)), (10, 10));

    assert_eq!(names(&tree, &tree.ranked_children(Some(worker))), ["hot_loop", "cold_path"]);
    let hot = node_named(&tree, Some(worker), "hot_loop");
    assert_eq!((tree.value(hot), tree.self_value(hot)), (70, 70));
    assert!(tree.children(Some(hot)).is_empty());
}

#[test]
fn call_tree_root_keeps_the_cost_no_ranked_stack_carries() {
    let report = ProfileReport::from_pprof(&encoded_profile(), Some("samples")).unwrap();
    let tree = report.call_tree();

    assert_eq!(report.total_value(), 10);
    assert_eq!(tree.root_value(), 10);
    assert_eq!(tree.root_self_value(), 0);
}

#[test]
fn call_tree_of_hand_built_stacks() {
    let stacks = vec![
        StackStat { frames: vec![rframe("main", 1), rframe("a", 2)], value: 5 },
        StackStat { frames: vec![rframe("main", 1)], value: 3 },
        StackStat { frames: vec![], value: 4 },
        StackStat { frames: vec![rframe("main", 1), rframe("a", 9)], value: -2 },
    ];
    let tree = CallTree::from_stacks(&stacks);

    assert_eq!(tree.root_value(), 10);
    assert_eq!(tree.root_self_value(), 4);
    assert_eq!(tree.len(), 3);

    let main = node_named(&tree, None, "main");
    assert_eq!((tree.value(main), tree.self_value(main)), (6, 3));

    // The same function at another line is another node.
    let below = tree.ranked_children(Some(main));
    assert_eq!(below.len(), 2);
    assert_eq!((tree.frame(below[0]).line, tree.value(below[0])), (2, 5));
    assert_eq!((tree.frame(below[1]).line, tree.value(below[1])), (9, -2));
    assert_eq!(tree.self_value(below[1]), -2);
}

#[test]
fn call_tree_costs_saturate() {
    let stacks = vec![
        StackStat { frames: vec![rframe("main", 1)], value: i64::MAX },
        StackStat { frames: vec![rframe("main", 1)], value: 1 },
        StackStat { frames: vec![rframe("main", 1)], value: -5 },
    ];
    let tree = CallTree::from_stacks(&stacks);
    let main = node_named(&tree, None, "main");

    assert_eq!(tree.root_value(), i64::MAX - 5);
    assert_eq!(tree.value(main), i64::MAX - 5);
    assert_eq!(tree.self_value(main), i64::MAX - 5);
}

#[test]
fn call_tree_of_no_stacks_is_the_root_alone() {
    let tree = CallTree::from_stacks(&[]);

    assert_eq!((tree.root_value(), tree.root_self_value(), tree.len()), (0, 0, 0));
    assert!(tree.children(None).is_empty());
}

#[test]
fn call_tree_may_have_several_top_level_callers() {
    let mut profile = PprofProfile::decode(&encoded_profile()).unwrap();
    profile.samples[2].location_ids = vec![5];
    let report = ProfileReport::from_profile(&profile, None).unwrap();
    let tree = report.call_tree();

    assert_eq!(names(&tree, &tree.ranked_children(None)), ["main", "other"]);
    let other = node_named(&tree, None, "other");
    assert_eq!((tree.value(other), tree.self_value(other)), (10, 10));
    assert_eq!(tree.len(), 5);
}

#[test]
fn frame_and_stack_costs_add_up_to_the_total() {
    let report = ProfileReport::from_pprof(&encoded_profile(), None).unwrap();

    let flat: i64 = report.top_frames().iter().map(|frame| frame.flat).sum();
    let stacks: i64 = report.top_stacks().iter().map(|stack| stack.value).sum();

    assert_eq!(flat, 100);
    assert_eq!(stacks, 100);
    assert!(stacks <= report.total_value());
    assert!(report.top_stacks().iter().all(|stack| !stack.frames.is_empty()));
}

#[test]
fn flat_cost_is_bounded_by_cumulative_cost_and_total() {
    let report = ProfileReport::from_pprof(&encoded_profile(), None).unwrap();

    for frame in report.top_frames() {
        assert!(0 <= frame.flat);
        assert!(frame.flat <= frame.cumulative);
        assert!(frame.cumulative <= report.total_value());
    }
    let main = report.top_frames().iter().find(|frame| frame.function == "main").unwrap();
    assert_eq!((main.flat, main.cumulative), (0, 100));
}
