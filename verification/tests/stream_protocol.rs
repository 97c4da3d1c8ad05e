use pprofessor::stream::PublisherState;
use pprofessor::sampler::ThreadSample;
use pprofessor::{FrameKind, RawProfile, RawProfileCursor, RawSampleSeries, SessionHello, StreamHeader, STREAM_HEADER_LEN};

#[test]
fn stream_header_round_trips_in_network_byte_order() {
    let header = StreamHeader { major: 1, minor: 0, kind: FrameKind::ProfileDelta, flags: 3, sequence: 42, payload_len: 65_536 };

    let encoded = header.encode();
    assert_eq!(encoded.len(), STREAM_HEADER_LEN);
    assert_eq!(&encoded[0..4], b"PPRS");
    assert_eq!(StreamHeader::decode(&encoded).unwrap(), header);
}

#[test]
fn stream_header_rejects_unknown_kind() {
    let mut encoded = StreamHeader { major: 1, minor: 0, kind: FrameKind::Hello, flags: 0, sequence: 0, payload_len: 0 }.encode();
    encoded[8..10].copy_from_slice(&999u16.to_be_bytes());
    assert!(StreamHeader::decode(&encoded).is_err());
}

#[test]
fn stream_header_rejects_a_short_buffer_and_a_bad_magic() {
    let encoded = StreamHeader { major: 1, minor: 0, kind: FrameKind::Hello, flags: 0, sequence: 7, payload_len: 9 }.encode();
    assert!(StreamHeader::decode(&encoded[..STREAM_HEADER_LEN - 1]).is_err());
    let mut bad = encoded;
    bad[0] = b'X';
    assert!(StreamHeader::decode(&bad).is_err());
}

#[test]
fn frame_kind_codes_round_trip() {
    for kind in [FrameKind::Hello, FrameKind::ProfileDelta] {
        assert_eq!(FrameKind::try_from(kind.code()).unwrap(), kind);
    }
    assert!(FrameKind::try_from(999).is_err());
}

#[test]
fn session_hello_keeps_its_fields() {
    let hello = SessionHello::new("session-1", "attach", 42, "target", 99);
    assert_eq!(hello.session_id, "session-1");
    assert_eq!(hello.mode, "attach");
    assert_eq!(hello.pid, 42);
    assert_eq!(hello.process_name, "target");
    assert_eq!(hello.frequency_hz, 99);
}

#[test]
fn raw_profile_cursor_returns_only_unpublished_counts() {
    let mut profile = RawProfile::new(0);
    profile.insert_series(1, vec![0x10, 0x20], RawSampleSeries::timed(vec![10, 20, 30]));
    profile.set_thread_name(1, "main".to_string());
    let mut cursor = RawProfileCursor::default();

    let first = cursor.delta(&profile).unwrap();
    assert_eq!(first.series(1, &vec![0x10, 0x20]).unwrap().count, 3);
    assert_eq!(first.series(1, &vec![0x10, 0x20]).unwrap().timestamps_nanos, Some(vec![10, 20, 30]));
    assert_eq!(first.thread_name(1).map(String::as_str), Some("main"));

    profile.insert_series(1, vec![0x10, 0x20], RawSampleSeries::timed(vec![10, 20, 30, 40, 50]));
    let second = cursor.delta(&profile).unwrap();
    assert_eq!(second.series(1, &vec![0x10, 0x20]).unwrap().count, 2);
    assert_eq!(second.series(1, &vec![0x10, 0x20]).unwrap().timestamps_nanos, Some(vec![40, 50]));
    assert!(cursor.delta(&profile).is_none());
}

#[test]
fn raw_sample_series_supports_untimed_aggregates() {
    let series = RawSampleSeries::untimed(7);
    assert_eq!(series.count, 7);
    assert_eq!(series.timestamps_nanos, None);
}

#[test]
fn cursor_publishes_untimed_series_by_count_only() {
    let mut profile = RawProfile::new(5);
    profile.insert_series(2, vec![0x1], RawSampleSeries::untimed(4));
    profile.insert_series(3, vec![0x2], RawSampleSeries::untimed(1));
    let mut cursor = RawProfileCursor::default();
    let first = cursor.delta(&profile).unwrap();
    assert_eq!(first.series(2, &vec![0x1]).unwrap().count, 4);
    assert_eq!(first.series(3, &vec![0x2]).unwrap().count, 1);
    profile.insert_series(2, vec![0x1], RawSampleSeries::untimed(6));
    let second = cursor.delta(&profile).unwrap();
    assert_eq!(second.series(2, &vec![0x1]).unwrap().count, 2);
    assert_eq!(second.series(2, &vec![0x1]).unwrap().timestamps_nanos, None);
    assert!(second.series(3, &vec![0x2]).is_none());
    assert_eq!(second.start_time_nanos, 5);
}

#[test]
fn recording_samples_builds_timed_series_and_thread_names() {
    let mut profile = RawProfile::new(0);
    profile.record_round(
        vec![
            ThreadSample { thread_id: 7, thread_name: "worker".to_string(), stack: vec![1, 2], timestamp_nanos: 100 },
            ThreadSample { thread_id: 7, thread_name: String::new(), stack: vec![1, 2], timestamp_nanos: 200 },
            ThreadSample { thread_id: 8, thread_name: "idle".to_string(), stack: vec![], timestamp_nanos: 300 },
        ],
        400,
    );
    let series = profile.series(7, &vec![1, 2]).unwrap();
    assert_eq!(series.count, 2);
    assert_eq!(series.timestamps_nanos, Some(vec![100, 200]));
    assert_eq!(profile.thread_name(7).map(String::as_str), Some("worker"));
    assert!(profile.thread_name(8).is_none());
    assert_eq!(profile.end_time_nanos, 400);
    assert_eq!(profile.stacks.len(), 1);
}

#[test]
fn push_timestamp_saturates_the_count() {
    let mut series = RawSampleSeries::untimed(u64::MAX);
    series.push_timestamp(9);
    assert_eq!(series.count, u64::MAX);
    assert_eq!(series.timestamps_nanos, Some(vec![9]));
}

#[test]
fn publisher_frames_are_numbered_in_order() {
    let mut state = PublisherState::new();
    let hello = state.next_header(FrameKind::Hello, 12);
    assert_eq!(hello.sequence, 1);
    assert_eq!((hello.major, hello.minor, hello.flags, hello.payload_len), (1, 0, 0, 12));
    state.mark_connected();
    let delta = state.next_header(FrameKind::ProfileDelta, 0);
    assert_eq!(delta.sequence, 2);
    assert_eq!(delta.kind, FrameKind::ProfileDelta);
    assert!(state.take_just_connected());
    assert!(!state.take_just_connected());
    let mut full = PublisherState { sequence: u64::MAX, just_connected: false };
    assert_eq!(full.next_header(FrameKind::Finalizing, 0).sequence, u64::MAX);
}
