use pprofessor::symbolicated::unique_addresses;
use pprofessor::{FrameInfo, RawProfile, RawSampleSeries, SymbolicatedProfile, Symbolizer, Unresolved};

struct Evens;
impl Symbolizer for Evens {
    fn symbolize_frame(&self, address: u64) -> Option<FrameInfo> {
        (address % 2 == 0).then(|| FrameInfo { function: format!("f{address}"), file: "x.rs".to_string(), line: 1 })
    }
}

fn raw() -> RawProfile {
    let mut raw = RawProfile::new(100);
    raw.insert_series(1, vec![0x10, 0x21, 0x30], RawSampleSeries::untimed(3));
    raw.insert_series(1, vec![0x11, 0x30], RawSampleSeries::timed(vec![1, 2]));
    raw.insert_series(2, vec![0x21], RawSampleSeries::untimed(5));
    raw.set_thread_name(1, "main".to_string());
    raw.end_time_nanos = 1_100;
    raw
}

#[test]
fn unresolved_addresses_become_hex_frames_by_default() {
    let p = SymbolicatedProfile::from_raw_with_symbolizer(raw(), &Evens, Unresolved::default(), 99, 7);
    assert_eq!(p.frames.len(), 4);
    assert_eq!(p.frames[&0x10].function, "f16");
    assert_eq!(p.frames[&0x21].function, "0x0000000000000021");
    assert_eq!(p.samples.len(), 3);
    assert_eq!(p.samples[0].stack, vec![0x10, 0x21, 0x30]);
    assert_eq!(p.samples[1].count, 2);
    assert_eq!(p.threads[&1], "main");
    assert_eq!(p.duration_nanos, 1_000);
    assert_eq!(p.start_time_unix_nanos, 7);
    assert_eq!(p.freq_hz, 99);
}

#[test]
fn skipped_addresses_are_removed_and_empty_stacks_dropped() {
    let p = SymbolicatedProfile::from_raw_with_symbolizer(raw(), &Evens, Unresolved::Skip, 99, 7);
    assert_eq!(p.frames.len(), 2);
    assert_eq!(p.samples.len(), 2);
    assert_eq!(p.samples[0].stack, vec![0x10, 0x30]);
    assert_eq!(p.samples[1].stack, vec![0x30]);
    let frames = p.resolve_stack(&p.samples[0]);
    assert_eq!(frames.iter().map(|f| f.function.as_str()).collect::<Vec<_>>(), ["f16", "f48"]);
}

#[test]
fn unique_addresses_keep_first_occurrence_order() {
    assert_eq!(unique_addresses(&raw()), vec![0x10, 0x21, 0x30, 0x11]);
}

#[test]
fn the_call_tree_walks_stacks_from_the_root() {
    let p = SymbolicatedProfile::from_raw_with_symbolizer(raw(), &Evens, Unresolved::Hex, 99, 0);
    let roots = p.roots();
    assert_eq!(roots.iter().map(|r| r.address).collect::<Vec<_>>(), vec![0x30, 0x21]);
    let total: u64 = roots.iter().map(|r| r.total_count()).sum();
    assert_eq!(total, p.samples.iter().map(|s| s.count).sum::<u64>());
    assert_eq!(roots[0].total_count(), 5);
    assert_eq!(roots[0].self_count(), 0);
    assert_eq!(roots[1].self_count(), 5);
    let children = roots[0].children();
    assert_eq!(children.iter().map(|c| c.address).collect::<Vec<_>>(), vec![0x21, 0x11]);
    assert_eq!(children[0].prefix, vec![0x30, 0x21]);
    assert_eq!(children[0].frame().unwrap().function, "0x0000000000000021");
    assert_eq!(children[1].self_count(), 2);
    assert!(children[1].children().is_empty());
}
