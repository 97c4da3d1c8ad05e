use pprofessor::processes::{
    c_char_array, classify_attachability, cpu_architecture, elf_architecture, listed_processes, order_processes, parse_stat,
    process_name, start_time_micros, CS_GET_TASK_ALLOW, CS_PLATFORM_BINARY, CS_RUNTIME,
};
use pprofessor::ProcessInfo;
use pprofessor::session::{attach_preflight_error, parse_positive_usize, validate_process_identity};

#[test]
fn hardened_process_without_get_task_allow_is_protected() {
    let attachability = classify_attachability(CS_RUNTIME);

    assert!(!attachability.attachable);
    assert!(attachability.reason.as_deref().is_some_and(|reason| reason.contains("does not allow debugging")));
}

#[test]
fn platform_binary_without_get_task_allow_is_protected() {
    let attachability = classify_attachability(CS_PLATFORM_BINARY);

    assert!(!attachability.attachable);
}

#[test]
fn get_task_allow_makes_hardened_process_attachable() {
    let attachability = classify_attachability(CS_RUNTIME | CS_GET_TASK_ALLOW);

    assert!(attachability.attachable);
    assert!(attachability.reason.is_none());
}

#[test]
fn non_hardened_process_is_attachable() {
    let attachability = classify_attachability(0);

    assert!(attachability.attachable);
    assert!(attachability.reason.is_none());
}

#[test]
fn architecture_relay_is_needed_only_for_a_different_known_architecture() {
    assert_eq!(pprofessor::required_helper_arch("arm64", "x86_64"), Some("x86_64"));
    assert_eq!(pprofessor::required_helper_arch("arm64", "arm64"), None);
    assert_eq!(pprofessor::required_helper_arch("arm64", "unknown"), None);
}

#[test]
fn parses_names_with_spaces_and_process_identity_fields() {
    let stat = "42 (worker pool) S 7 1 1 0 -1 0 0 0 0 0 0 0 0 0 20 0 1 0 12345 0";
    let (name, parent_pid, start_time) = parse_stat(stat, 100).unwrap();
    assert_eq!(name, "worker pool");
    assert_eq!(parent_pid, 7);
    assert!(start_time > 0);
    assert_eq!(start_time, 123_450_000);
    assert!(parse_stat("42 worker S 7", 100).is_none());
    assert!(parse_stat(stat, 0).is_none());
}

#[test]
fn architectures_are_named_from_cpu_types_and_elf_headers() {
    assert_eq!(cpu_architecture(0x0100_000c), "arm64");
    assert_eq!(cpu_architecture(0x0100_0007), "x86_64");
    assert_eq!(cpu_architecture(7), "unknown");
    let mut header = [0u8; 20];
    header[..4].copy_from_slice(b"\x7fELF");
    header[5] = 1;
    header[18] = 62;
    assert_eq!(elf_architecture(&header), Some("x86_64"));
    header[5] = 2;
    header[18] = 0;
    header[19] = 183;
    assert_eq!(elf_architecture(&header), Some("arm64"));
    header[5] = 3;
    assert_eq!(elf_architecture(&header), None);
    assert_eq!(elf_architecture(b"not an elf header..."), None);
    assert_eq!(start_time_micros(2, 5), 2_000_005);
    assert_eq!(start_time_micros(u64::MAX, 5), u64::MAX);
}

#[test]
fn protected_target_error_explains_target_policy() {
    let error = attach_preflight_error(42, false, Some("Protected by macOS: this process does not allow debugging"))
        .expect("protected target should produce an error");

    assert!(error.contains("target process is protected by macOS"));
    assert!(error.contains("get-task-allow"));
    assert!(!error.contains("sign the profiler"));
}

#[test]
fn attachable_target_has_no_preflight_error() {
    assert!(attach_preflight_error(42, true, None).is_none());
}

#[test]
fn pid_identity_error_distinguishes_exit_or_reuse() {
    let error = validate_process_identity(42, 123, Some(456)).unwrap_err();

    assert!(error.to_string().contains("exited or its PID was reused"));
    assert!(error.starts_with("cannot attach to pid 42:"));
    assert!(validate_process_identity(42, 123, Some(123)).is_ok());
    assert!(validate_process_identity(42, 123, None).is_err());
}

#[test]
fn positive_counts_are_parsed_with_their_errors() {
    assert_eq!(parse_positive_usize("10"), Ok(10));
    assert_eq!(parse_positive_usize("0"), Err("value must be at least 1".to_string()));
    assert_eq!(parse_positive_usize("ten"), Err("\"ten\" is not a positive integer".to_string()));
    assert_eq!(parse_positive_usize("-1"), Err("\"-1\" is not a positive integer".to_string()));
}

fn process(pid: u32, name: &str) -> ProcessInfo {
    ProcessInfo {
        pid,
        parent_pid: 1,
        uid: 501,
        name: name.to_string(),
        executable_path: None,
        start_time_micros: 0,
        architecture: "arm64".to_string(),
        attachable: true,
        attachability_reason: None,
    }
}

#[test]
fn processes_are_listed_by_lowercased_name_then_pid() {
    let listed = order_processes(vec![
        process(30, "zsh"),
        process(20, "Bash"),
        process(10, "bash"),
        process(5, "Ärger"),
        process(1, "apple"),
    ]);
    let order: Vec<(u32, &str)> = listed.iter().map(|p| (p.pid, p.name.as_str())).collect();
    assert_eq!(order, vec![(1, "apple"), (10, "bash"), (20, "Bash"), (30, "zsh"), (5, "Ärger")]);
}

#[test]
fn c_char_arrays_stop_at_the_first_nul() {
    assert_eq!(c_char_array(b"launchd\0junk"), Some("launchd".to_string()));
    assert_eq!(c_char_array(b"no-nul"), Some("no-nul".to_string()));
    assert_eq!(c_char_array(b"\0abc"), None);
    assert_eq!(c_char_array(b""), None);
    assert_eq!(c_char_array(&[0x66, 0xff, 0]), Some("f\u{fffd}".to_string()));
}

#[test]
fn process_names_fall_back_to_the_command_then_the_pid() {
    assert_eq!(process_name(b"Safari\0", b"safari\0", 7), "Safari");
    assert_eq!(process_name(b"\0", b"safari\0", 7), "safari");
    assert_eq!(process_name(b"\0\0", b"", 4321), "4321");
}

#[test]
fn only_the_users_processes_with_a_positive_pid_are_listed() {
    let mut other_user = process(30, "alpha");
    other_user.uid = 0;
    let listed = listed_processes(vec![process(20, "zeta"), other_user, process(0, "kernel"), process(10, "Beta")], 501);
    let names: Vec<_> = listed.iter().map(|p| (p.pid, p.name.as_str())).collect();
    assert_eq!(names, [(10, "Beta"), (20, "zeta")]);
}
