use proxy_engine::descriptor::Proxy;
use proxy_engine::pool::ProxyManager;
use proxy_engine::record::append_record;
use proxy_engine::record::make_identity;
use proxy_engine::record::random_string;
use proxy_engine::record::Record;
use proxy_engine::scheduler::is_success_status;
use proxy_engine::scheduler::job_may_attempt;
use proxy_engine::scheduler::job_start;
use proxy_engine::scheduler::job_step;
use proxy_engine::scheduler::AttemptOutcome;
use proxy_engine::scheduler::JobStatus;
use proxy_engine::scheduler::RunState;
use proxy_engine::text::parse_host_port;
use proxy_engine::text::split_lines;

fn endpoint(ip: &str, port: &str) -> Proxy {
    Proxy {
        ip: String::from(ip),
        port: String::from(port),
        code: String::new(),
        country: String::new(),
        anonymity: String::new(),
        https: String::new(),
    }
}

#[test]
fn rotation_walks_pool_in_order() {
    let pool = vec![String::from("a"), String::from("b"), String::from("c")];
    let mut pm = ProxyManager::new(pool);
    let mut seen = Vec::new();
    for _ in 0..7 {
        seen.push(pm.get_next_proxy());
    }
    assert_eq!(seen, vec!["a", "b", "c", "a", "b", "c", "a"]);
    assert_eq!(pm.index, 7);
}

#[test]
fn rotation_single_entry_pool_always_returns_it() {
    let mut pm = ProxyManager::new(vec![String::from("2.2.2.2:8080")]);
    for _ in 0..5 {
        assert_eq!(pm.get_next_proxy(), "2.2.2.2:8080");
    }
}

#[test]
fn job_all_recoverable_failures_spends_every_retry() {
    let mut s = job_start(3);
    let mut attempts: u32 = 0;
    while job_may_attempt(&s) {
        s = job_step(&s, &AttemptOutcome::Rejected);
        attempts += 1;
    }
    assert_eq!(attempts, 3);
    assert_eq!(s.attempts, 3);
    assert!(matches!(s.status, JobStatus::Failed));
}

#[test]
fn job_success_on_second_attempt_stops_there() {
    let mut s = job_start(3);
    s = job_step(&s, &AttemptOutcome::TransportFailure);
    assert!(matches!(s.status, JobStatus::Running));
    s = job_step(&s, &AttemptOutcome::Success);
    assert_eq!(s.attempts, 2);
    assert!(matches!(s.status, JobStatus::Succeeded));
    assert!(!job_may_attempt(&s));
}

#[test]
fn job_with_no_retries_never_attempts() {
    let s = job_start(0);
    assert!(!job_may_attempt(&s));
    assert!(matches!(s.status, JobStatus::Failed));
    assert_eq!(s.attempts, 0);
}

#[test]
fn success_signal_is_exactly_201() {
    assert!(is_success_status(201));
    assert!(!is_success_status(200));
    assert!(!is_success_status(500));
}

/// Runs a whole batch sequentially under the admission accounting:
/// each admitted job retries up to `max_retries` times against an
/// operation that answers with `status`; successes append to the log.
fn drive_run(
    total: usize,
    max_concurrent: usize,
    max_retries: u32,
    status: u16,
    log: &mut String,
) -> RunState {
    let mut run = RunState::start(total, max_concurrent);
    let mut in_flight: Vec<proxy_engine::scheduler::JobState> = Vec::new();
    loop {
        while run.try_admit() {
            in_flight.push(job_start(max_retries));
            assert!(run.in_flight <= max_concurrent);
        }
        if in_flight.is_empty() {
            break;
        }
        let mut job = in_flight.remove(0);
        while job_may_attempt(&job) {
            let outcome = if is_success_status(status) {
                AttemptOutcome::Success
            } else {
                AttemptOutcome::Rejected
            };
            job = job_step(&job, &outcome);
            if matches!(job.status, JobStatus::Succeeded) {
                let record = make_identity();
                append_record(log, &record);
            }
        }
        run.finish(matches!(job.status, JobStatus::Succeeded));
        assert!(run.in_flight <= max_concurrent);
    }
    assert!(run.is_done());
    run
}

#[test]
fn run_of_rejected_jobs_reports_five_failures_and_no_records() {
    let mut log = String::new();
    let run = drive_run(5, 2, 1, 400, &mut log);
    assert_eq!(run.permanent_failures(), 5);
    assert_eq!(run.records_emitted(), 0);
    assert_eq!(log, "");
}

#[test]
fn run_of_successful_jobs_writes_five_wellformed_lines() {
    let mut log = String::new();
    let run = drive_run(5, 2, 1, 201, &mut log);
    assert_eq!(run.permanent_failures(), 0);
    assert_eq!(run.records_emitted(), 5);
    let lines = split_lines(&log);
    assert_eq!(lines.len(), 5);
    for line in &lines {
        let parsed = parse_host_port(line).expect("each sink line holds one delimiter");
        assert!(parsed.0.ends_with("@livinitlarge.net"));
        assert_eq!(parsed.1.len(), 10);
    }
}

#[test]
fn admission_never_exceeds_cap() {
    let mut run = RunState::start(10, 3);
    assert!(run.try_admit());
    assert!(run.try_admit());
    assert!(run.try_admit());
    assert!(!run.try_admit());
    assert_eq!(run.in_flight, 3);
    run.finish(true);
    assert_eq!(run.in_flight, 2);
    assert!(run.try_admit());
    assert!(!run.try_admit());
    assert_eq!(run.pending, 6);
    assert_eq!(run.succeeded, 1);
}

#[test]
fn random_string_is_ten_alphanumerics() {
    let s = random_string();
    assert_eq!(s.len(), 10);
    assert!(s.chars().all(|c| c.is_ascii_alphanumeric()));
}

#[test]
fn identity_is_wellformed_for_the_sink() {
    let r = make_identity();
    assert!(r.identifier.ends_with("@livinitlarge.net"));
    assert!(!r.identifier.contains(':'));
    assert!(!r.secret.contains(':'));
    assert_eq!(r.secret.len(), 10);
}

#[test]
fn appended_records_round_trip_line_by_line() {
    let mut log = String::new();
    let a = Record { identifier: String::from("alice@example.net"), secret: String::from("pw1") };
    let b = Record { identifier: String::from("bob@example.net"), secret: String::from("pw2") };
    append_record(&mut log, &a);
    append_record(&mut log, &b);
    assert_eq!(log, "alice@example.net:pw1\nbob@example.net:pw2\n");
    let lines = split_lines(&log);
    assert_eq!(lines.len(), 2);
    let (id, secret) = parse_host_port(&lines[0]).unwrap();
    assert_eq!(id, "alice@example.net");
    assert_eq!(secret, "pw1");
}

#[test]
fn probe_address_joins_ip_and_port() {
    let p = endpoint("10.0.0.1", "3128");
    assert_eq!(p.probe_address(), "10.0.0.1:3128");
}

#[test]
fn rotation_near_cursor_limit_still_draws() {
    let mut pm = ProxyManager::new(vec![String::from("a"), String::from("b")]);
    pm.index = usize::MAX - 2;
    let first = pm.get_next_proxy();
    let second = pm.get_next_proxy();
    assert_eq!(pm.index, usize::MAX);
    let expected = [
        &pm.proxies[(usize::MAX - 2) % 2],
        &pm.proxies[(usize::MAX - 1) % 2],
    ];
    assert_eq!(&first, expected[0]);
    assert_eq!(&second, expected[1]);
}
