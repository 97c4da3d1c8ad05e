use pprofessor::sampler::linux::{drain_ring, escapes_fit_check, maps_escapes_ok, ring_layout, parse_loaded_images, parse_perf_sample, perf_thread_sample, PerfSample, take_u32, take_u64, ByteOrder, LinuxSampler, PerfEventAttr};
use pprofessor::sampler::macos::{aarch64, append_dyld_loader_image, prefer_loaded_images, resolve_image_path, thread_matches_filter, x86_64};
use pprofessor::sampler::{sampling_loop_step, str_contains, FrameWalk, LoopStep, SamplingClock, MAX_WALK_DEPTH};
use pprofessor::{LoadedImage, ThreadFilter};

#[test]
fn perf_event_attr_uses_the_version_zero_abi_size() {
    let attr = PerfEventAttr::software_cpu_clock(99);
    assert_eq!(std::mem::size_of::<PerfEventAttr>(), 64);
    assert_eq!(attr.size, 64);
    assert_eq!(attr.sample_freq, 99);
    assert_eq!(attr.flags, 0b100_0110_0001);
}

#[test]
fn test_empty_image_refresh_preserves_last_observed_images() {
    let existing = vec![LoadedImage { load_address: 0x1000, path: "/tmp/target".to_string() }];

    let preserved = prefer_loaded_images(existing.clone(), Vec::new());
    assert_eq!(preserved.len(), 1);
    assert_eq!(preserved[0].path, "/tmp/target");

    let replacement = vec![LoadedImage { load_address: 0x2000, path: "/tmp/new-target".to_string() }];
    let refreshed = prefer_loaded_images(existing, replacement);
    assert_eq!(refreshed.len(), 1);
    assert_eq!(refreshed[0].path, "/tmp/new-target");
}

#[test]
fn test_dyld_loader_is_included_as_a_loaded_image() {
    let mut images = vec![LoadedImage { load_address: 0x1862_f3000, path: "/usr/lib/system/libdyld.dylib".to_string() }];

    append_dyld_loader_image(&mut images, 2, 0x1863_28000);

    let dyld = images.iter().find(|image| image.path == "/usr/lib/dyld").expect("dyld loader image should be present");
    assert_eq!(dyld.load_address, 0x1863_28000);

    append_dyld_loader_image(&mut images, 2, 0x1863_28000);
    append_dyld_loader_image(&mut images, 1, 0x9000);
    append_dyld_loader_image(&mut images, 2, 0);
    assert_eq!(images.len(), 2);
}

#[test]
fn relative_main_image_uses_process_executable_path() {
    let resolved = resolve_image_path("target/debug/sequins-daemon", Some("/Users/test/sequins/target/debug/sequins-daemon"));

    assert_eq!(resolved, "/Users/test/sequins/target/debug/sequins-daemon");
}

#[test]
fn absolute_image_path_is_preserved() {
    let resolved = resolve_image_path("/tmp/libexample.dylib", Some("/Users/test/sequins/target/debug/sequins-daemon"));

    assert_eq!(resolved, "/tmp/libexample.dylib");
    assert_eq!(resolve_image_path("lib/other", Some("/x/daemon")), "lib/other");
    assert_eq!(resolve_image_path("lib/other", None), "lib/other");
}

#[test]
fn test_strip_pac_aarch64() {
    let addr = 0xFFFF_8000_1234_5678u64;
    assert_eq!(aarch64::strip_pac(addr), 0x0000_0000_1234_5678u64);
    let addr = 0x0000_7FFF_1234_5678u64;
    assert_eq!(x86_64::strip_pac(addr), addr);
}

#[test]
fn test_frame_pointer_alignment_check() {
    let misaligned_fp: u64 = 0x1001;
    assert_ne!(misaligned_fp & 0x7, 0);
    assert!(!pprofessor::sampler::frame_pointer_usable(misaligned_fp));
    assert!(!pprofessor::sampler::frame_pointer_usable(0));
    assert!(pprofessor::sampler::frame_pointer_usable(0x1000));
}

fn record(ip: u64, tid: u32, chain: &[u64]) -> Vec<u8> {
    let mut r = vec![0u8; 8];
    r.extend_from_slice(&ip.to_le_bytes());
    r.extend_from_slice(&1234u32.to_le_bytes());
    r.extend_from_slice(&tid.to_le_bytes());
    r.extend_from_slice(&(chain.len() as u64).to_le_bytes());
    for a in chain {
        r.extend_from_slice(&a.to_le_bytes());
    }
    r
}

#[test]
fn perf_samples_drop_context_markers_and_prepend_the_instruction_pointer() {
    let rec = record(0x500, 77, &[u64::MAX - 127, 0x400, 0, 0x300]);
    let sample = parse_perf_sample(&rec, ByteOrder::Little).unwrap();
    assert_eq!(sample.thread_id, 77);
    assert_eq!(sample.stack, vec![0x500, 0x400, 0x300]);

    let rec = record(0x400, 5, &[0x400, 0x300]);
    assert_eq!(parse_perf_sample(&rec, ByteOrder::Little).unwrap().stack, vec![0x400, 0x300]);

    let rec = record(0, 5, &[]);
    assert_eq!(parse_perf_sample(&rec, ByteOrder::Little).unwrap().stack, Vec::<u64>::new());

    let mut truncated = record(0x1, 5, &[0x2, 0x3]);
    truncated.truncate(truncated.len() - 1);
    assert!(parse_perf_sample(&truncated, ByteOrder::Little).is_none());
    assert!(parse_perf_sample(&[0u8; 31], ByteOrder::Little).is_none());
}

#[test]
fn words_are_read_in_the_requested_byte_order() {
    let bytes = [1u8, 2, 3, 4, 5, 6, 7, 8, 9];
    let mut offset = 1usize;
    assert_eq!(take_u32(&bytes, &mut offset, ByteOrder::Little), Some(0x0504_0302));
    assert_eq!(offset, 5);
    assert_eq!(take_u32(&bytes, &mut offset, ByteOrder::Big), Some(0x0607_0809));
    assert_eq!(offset, 9);
    assert_eq!(take_u32(&bytes, &mut offset, ByteOrder::Big), None);
    assert_eq!(offset, 9);
    let mut offset = 0usize;
    assert_eq!(take_u64(&bytes, &mut offset, ByteOrder::Big), Some(0x0102_0304_0506_0708));
    assert_eq!(take_u64(&bytes, &mut offset, ByteOrder::Big), None);
}

#[test]
fn linux_threads_are_selected_in_id_order_through_the_filter() {
    let threads = || vec![(30u32, "worker-b".to_string()), (10, "main".to_string()), (20, "worker-a".to_string())];
    let mut sampler = LinuxSampler::for_process(1, 99);
    let all: Vec<u32> = sampler.selected_threads(threads(), Some(20)).into_iter().map(|t| t.0).collect();
    assert_eq!(all, vec![10, 30]);
    sampler.thread_filter = ThreadFilter::MainThread;
    assert_eq!(sampler.selected_threads(threads(), None), vec![(10, "main".to_string())]);
    sampler.thread_filter = ThreadFilter::ByName("worker".to_string());
    let named: Vec<u32> = sampler.selected_threads(threads(), None).into_iter().map(|t| t.0).collect();
    assert_eq!(named, vec![20, 30]);
    sampler.thread_filter = ThreadFilter::ById(30);
    assert_eq!(sampler.selected_threads(threads(), None).len(), 1);
    sampler.thread_filter = ThreadFilter::ByMachThread(3);
    assert!(sampler.selected_threads(threads(), None).is_empty());
    assert_eq!(sampler.sampling_interval_micros(), 10_101);
    assert_eq!(LinuxSampler::for_process(1, 1).perf_poll_interval_micros(), 5_000);
    assert_eq!(LinuxSampler::for_process(1, 10_000).perf_poll_interval_micros(), 500);
}

#[test]
fn mach_threads_match_by_port_id_name_or_position() {
    assert!(thread_matches_filter(&ThreadFilter::ByMachThread(7), 7, 1, "", 3));
    assert!(!thread_matches_filter(&ThreadFilter::ByMachThread(7), 8, 1, "", 0));
    assert!(thread_matches_filter(&ThreadFilter::MainThread, 8, 1, "", 0));
    assert!(!thread_matches_filter(&ThreadFilter::MainThread, 8, 1, "", 1));
    assert!(thread_matches_filter(&ThreadFilter::ByName("ool".to_string()), 8, 1, "pool-1", 1));
    assert!(thread_matches_filter(&ThreadFilter::ById(5), 8, 5, "", 1));
    assert!(str_contains("abc", ""));
    assert!(!str_contains("ab", "abc"));
}

#[test]
fn proc_maps_are_collapsed_to_one_image_per_load_bias() {
    let maps = "\
55555000-55556000 r--p 00000000 08:01 1 /tmp/test\\040binary\n\
55556000-55557000 r-xp 00001000 08:01 1 /tmp/test\\040binary\n\
7f000000-7f001000 r--p 00000000 08:01 2 /usr/lib/libc.so.6\n";

    assert_eq!(
        parse_loaded_images(maps),
        vec![
            LoadedImage {
                load_address: 0x55555000,
                path: "/tmp/test binary".to_string(),
            },
            LoadedImage {
                load_address: 0x7f000000,
                path: "/usr/lib/libc.so.6".to_string(),
            },
        ]
    );
}

#[test]
fn maps_lines_without_a_path_or_with_pseudo_paths_are_skipped() {
    let maps = "\
00400000-00401000 r-xp 00000000 08:01 1\n\
7ffd0000-7ffd1000 rw-p 00000000 00:00 0 [stack]\n\
7f100000-7f101000 r-xp 00002000 08:01 3 /lib/a.so\n";
    assert_eq!(
        parse_loaded_images(maps),
        vec![LoadedImage {
            load_address: 0x7f0fe000,
            path: "/lib/a.so".to_string(),
        }]
    );
}

#[test]
fn ptrace_loop_refreshes_images_every_half_second_and_stops_on_any_signal() {
    let sampler = LinuxSampler::for_process(42, 100);
    let mut clock = SamplingClock { deadline_nanos: Some(2_000_000_000), next_image_refresh_nanos: 0 };
    assert_eq!(sampler.run_sampling_loop(&mut clock, false, false, 0), LoopStep::Sample { refresh_images: true });
    assert_eq!(clock.next_image_refresh_nanos, 500_000_000);
    assert_eq!(sampler.run_sampling_loop(&mut clock, false, false, 499_999_999), LoopStep::Sample { refresh_images: false });
    assert_eq!(sampler.run_sampling_loop(&mut clock, false, false, 500_000_000), LoopStep::Sample { refresh_images: true });
    assert_eq!(clock.next_image_refresh_nanos, 1_000_000_000);
    assert_eq!(sampler.run_sampling_loop(&mut clock, false, true, 600_000_000), LoopStep::Finish);
    assert_eq!(sampler.run_sampling_loop(&mut clock, true, false, 600_000_000), LoopStep::Finish);
    assert_eq!(sampler.run_sampling_loop(&mut clock, false, false, 2_000_000_000), LoopStep::Finish);
    let mut late = SamplingClock { deadline_nanos: None, next_image_refresh_nanos: 0 };
    assert_eq!(sampler.run_sampling_loop(&mut late, false, false, u64::MAX), LoopStep::Sample { refresh_images: true });
    assert_eq!(late.next_image_refresh_nanos, u64::MAX);
}

#[test]
fn perf_loop_ignores_child_exit_and_never_refreshes_images() {
    let sampler = LinuxSampler::for_current_process(42, 100);
    let mut clock = SamplingClock { deadline_nanos: None, next_image_refresh_nanos: 0 };
    assert_eq!(sampler.run_sampling_loop(&mut clock, false, true, 10), LoopStep::Sample { refresh_images: false });
    assert_eq!(clock.next_image_refresh_nanos, 0);
    assert_eq!(sampler.run_sampling_loop(&mut clock, true, false, 10), LoopStep::Finish);
}

#[test]
fn perf_records_without_a_thread_belong_to_the_configured_thread() {
    let name = "worker".to_string();
    let s = perf_thread_sample(7, &name, PerfSample { thread_id: 0, stack: vec![1, 2] }, 99);
    assert_eq!(s.thread_id, 7);
    assert_eq!(s.thread_name, "worker");
    assert_eq!(s.stack, vec![1, 2]);
    assert_eq!(s.timestamp_nanos, 99);
    let s = perf_thread_sample(7, &name, PerfSample { thread_id: 9, stack: vec![] }, 1);
    assert_eq!(s.thread_id, 9);
}

#[test]
fn perf_ring_layout_defaults_to_the_pages_after_the_header() {
    assert_eq!(ring_layout(4096, 0, 0), Some((36864, 4096, 32768)));
    assert_eq!(ring_layout(4096, 2048, 4096), Some((36864, 2048, 4096)));
    assert_eq!(ring_layout(4096, 8192, 100_000), None);
}

fn put(ring: &mut [u8], position: usize, bytes: &[u8]) {
    for (i, b) in bytes.iter().enumerate() {
        let n = ring.len();
        ring[(position + i) % n] = *b;
    }
}

#[test]
fn perf_ring_records_are_read_across_the_wrap_and_others_skipped() {
    let mut ring = vec![0u8; 64];
    let mut sample = Vec::new();
    sample.extend_from_slice(&9u32.to_le_bytes());
    sample.extend_from_slice(&0u16.to_le_bytes());
    sample.extend_from_slice(&40u16.to_le_bytes());
    sample.extend_from_slice(&0x1000u64.to_le_bytes());
    sample.extend_from_slice(&77u32.to_le_bytes());
    sample.extend_from_slice(&78u32.to_le_bytes());
    sample.extend_from_slice(&1u64.to_le_bytes());
    sample.extend_from_slice(&0x2000u64.to_le_bytes());
    put(&mut ring, 40, &sample);
    let mut other = Vec::new();
    other.extend_from_slice(&3u32.to_le_bytes());
    other.extend_from_slice(&0u16.to_le_bytes());
    other.extend_from_slice(&8u16.to_le_bytes());
    put(&mut ring, 80, &other);
    let (samples, tail) = drain_ring(&ring, 88, 40, ByteOrder::Little);
    assert_eq!(samples, vec![PerfSample { thread_id: 78, stack: vec![0x1000, 0x2000] }]);
    assert_eq!(tail, 88);
    // A partial record is left for the next drain.
    let (samples, tail) = drain_ring(&ring, 84, 40, ByteOrder::Little);
    assert_eq!(samples.len(), 1);
    assert_eq!(tail, 80);
}

#[test]
fn perf_ring_overruns_restart_one_area_behind_the_head() {
    let ring = vec![0u8; 64];
    let (samples, tail) = drain_ring(&ring, 200, 0, ByteOrder::Little);
    assert!(samples.is_empty());
    assert_eq!(tail, 136);
    let (samples, tail) = drain_ring(&ring, 5, 9, ByteOrder::Little);
    assert!(samples.is_empty());
    assert_eq!(tail, 9);
}

#[test]
fn maps_escapes_are_checked_before_parsing() {
    assert!(maps_escapes_ok("55555000-55556000 r--p 00000000 08:01 1 /tmp/test\\040binary\n"));
    assert!(!maps_escapes_ok("55555000-55556000 r--p 00000000 08:01 1 /tmp/bad\\477\n"));
    // Lines that name no image are not looked at.
    assert!(maps_escapes_ok("55555000-55556000 r--p 00000000 08:01 1 [vdso\\477]\n"));
    assert!(escapes_fit_check(b"a\\377b"));
    assert!(!escapes_fit_check(b"\\400x"));
    assert!(escapes_fit_check(b"\\4"));
}

#[test]
fn frame_walks_stop_at_the_depth_limit_and_at_bad_frames() {
    // An endless chain of frames, each pointing 16 bytes higher.
    let mut walk = FrameWalk::new(0x1000);
    let mut recorded = Vec::new();
    while let Some(fp) = walk.frame_to_read() {
        if let Some(address) = walk.advance(Some((fp + 16, 0x4000 + fp))) {
            recorded.push(address);
        }
    }
    assert_eq!(recorded.len(), MAX_WALK_DEPTH);
    assert_eq!(recorded[0], 0x5000);

    // An unreadable frame ends the walk; so does an unaligned frame pointer.
    let mut walk = FrameWalk::new(0x1000);
    assert_eq!(walk.frame_to_read(), Some(0x1000));
    assert_eq!(walk.advance(None), None);
    assert_eq!(walk.frame_to_read(), None);
    assert_eq!(FrameWalk::new(0x1001).frame_to_read(), None);

    // A frame whose caller lies below it is recorded, and the walk ends there.
    let mut walk = FrameWalk::new(0x2000);
    assert_eq!(walk.advance(Some((0x1000, 0x7777))), Some(0x7777));
    assert_eq!(walk.frame_to_read(), None);
}
