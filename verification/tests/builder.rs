use pprofessor::{builder, FrameInfo, ProfilerBuilder, Symbolizer, ThreadFilter, Unresolved};

struct Nothing;
impl Symbolizer for Nothing {
    fn symbolize_frame(&self, _address: u64) -> Option<FrameInfo> {
        None
    }
}

#[test]
fn the_default_configuration_samples_every_thread_at_99_hz() {
    let (freq, filter, duration, symbolizer, unresolved) = builder().into_parts();
    assert_eq!(freq, 99);
    assert_eq!(filter, ThreadFilter::All);
    assert_eq!(duration, None);
    assert!(symbolizer.is_none());
    assert_eq!(unresolved, Unresolved::Hex);
    let (freq, ..) = ProfilerBuilder::default().into_parts();
    assert_eq!(freq, 99);
}

#[test]
fn builder_settings_are_kept() {
    let (freq, filter, duration, symbolizer, unresolved) = ProfilerBuilder::new()
        .freq(250)
        .duration(1_500_000_000)
        .thread_name("worker".to_string())
        .symbolizer(Nothing)
        .unresolved(Unresolved::Skip)
        .into_parts();
    assert_eq!(freq, 250);
    assert_eq!(filter, ThreadFilter::ByName("worker".to_string()));
    assert_eq!(duration, Some(1_500_000_000));
    assert!(symbolizer.is_some());
    assert_eq!(unresolved, Unresolved::Skip);
    let (_, filter, ..) = builder().thread_id(7).into_parts();
    assert_eq!(filter, ThreadFilter::ById(7));
    let (_, filter, ..) = builder().main_thread().into_parts();
    assert_eq!(filter, ThreadFilter::MainThread);
    let (_, filter, ..) = builder().thread_mach_port(0x1103).into_parts();
    assert_eq!(filter, ThreadFilter::ByMachThread(0x1103));
}

#[test]
fn command_line_thread_selection_prefers_main_then_name_then_id() {
    let pick = |thread: Option<&str>, id: Option<u64>, main: bool| {
        builder().apply_thread_filter(thread.map(str::to_string), id, main).into_parts().1
    };
    assert_eq!(pick(Some("a"), Some(3), true), ThreadFilter::MainThread);
    assert_eq!(pick(Some("a"), Some(3), false), ThreadFilter::ByName("a".to_string()));
    assert_eq!(pick(None, Some(3), false), ThreadFilter::ById(3));
    assert_eq!(pick(None, None, false), ThreadFilter::All);
}
