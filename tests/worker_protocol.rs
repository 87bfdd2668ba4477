use fscan::worker::{
    determine_application_mode, interpret_worker_exit, parse_minimum_bytes,
    parse_worker_arguments, validate_argument_count, worker_command_args, ApplicationMode,
    DispatchError, WorkerError,
};

fn args(items: &[&str]) -> Vec<String> {
    items.iter().map(|s| s.to_string()).collect()
}

#[test]
fn worker_flag_selects_worker_mode() {
    assert_eq!(
        determine_application_mode(&args(&["fscan", "--worker", "/tmp", "0"])),
        ApplicationMode::Worker
    );
    assert_eq!(determine_application_mode(&args(&["fscan"])), ApplicationMode::Interactive);
    assert_eq!(
        determine_application_mode(&args(&["fscan", "/tmp", "--worker"])),
        ApplicationMode::Interactive
    );
}

#[test]
fn too_few_worker_arguments_is_a_usage_error() {
    let err = parse_worker_arguments(&args(&["fscan", "--worker"])).unwrap_err();
    assert_eq!(err, WorkerError::InvalidArguments);
    assert_eq!(err.exit_status(), 1);
    assert_eq!(err.message(), "Usage: --worker <folder_path> <min_size_bytes>");
    assert!(validate_argument_count(&args(&["a", "b", "c"])).is_err());
    assert!(validate_argument_count(&args(&["a", "b", "c", "d"])).is_ok());
}

#[test]
fn worker_arguments_are_read() {
    assert_eq!(
        parse_worker_arguments(&args(&["fscan", "--worker", "/data", "1048576"])),
        Ok(("/data".to_string(), 1048576))
    );
}

#[test]
fn unreadable_threshold_counts_as_zero() {
    assert_eq!(
        parse_worker_arguments(&args(&["fscan", "--worker", "/data", "lots"])),
        Ok(("/data".to_string(), 0))
    );
    assert_eq!(parse_minimum_bytes("-3"), 0);
    assert_eq!(parse_minimum_bytes("12"), 12);
}

#[test]
fn failure_classes_have_distinct_statuses() {
    let scan = WorkerError::ScanError("gone".to_string());
    let encode = WorkerError::SerializationError("bad".to_string());
    assert_eq!(scan.exit_status(), 3);
    assert_eq!(encode.exit_status(), 2);
    assert_eq!(scan.message(), "Error saat scanning folder: gone");
    assert_eq!(encode.message(), "Error saat serialisasi JSON: bad");
}

#[test]
fn worker_command_carries_flag_path_and_threshold() {
    assert_eq!(
        worker_command_args("/some dir", 1048576),
        args(&["--worker", "/some dir", "1048576"])
    );
}

#[test]
fn failed_worker_reports_trimmed_stderr() {
    let r = interpret_worker_exit(false, b"ignored", b"  disk on fire \n");
    assert_eq!(r, Err(DispatchError::WorkerFailed("disk on fire".to_string())));
    assert_eq!(
        r.unwrap_err().message(),
        "Worker process gagal: disk on fire"
    );
}

#[test]
fn successful_worker_hands_back_stdout() {
    let r = interpret_worker_exit(true, b"{\"total_size\":0}\n", b"noise");
    assert_eq!(r, Ok("{\"total_size\":0}\n".to_string()));
    let lossy = interpret_worker_exit(true, b"a\xffb", b"");
    assert_eq!(lossy, Ok("a\u{fffd}b".to_string()));
}

#[test]
fn launch_failure_is_reported_as_such() {
    let e = DispatchError::Launch("No such file or directory (os error 2)".to_string());
    assert_eq!(
        e.message(),
        "Gagal menjalankan worker process: No such file or directory (os error 2)"
    );
    assert_eq!(
        DispatchError::InvalidOutput("EOF".to_string()).message(),
        "Output JSON tidak valid dari worker: EOF"
    );
}
