use load_harness::config::{Client, ConfigError, FailurePolicy, RunConfig};
use load_harness::dispatcher::{RunError, RunResult};
use load_harness::replay::{dispatch, Reply};
use load_harness::stats::Stats;

fn run(requests: usize, limit: usize, expected: Option<&str>, policy: FailurePolicy) -> RunConfig {
    RunConfig {
        target: "http://localhost:8080".to_string(),
        requests,
        limit,
        expected: expected.map(|e| e.to_string()),
        report_stats: true,
        policy,
    }
}

fn body(elapsed_micros: u64, text: &str) -> Reply {
    Reply::Body { elapsed_micros, body: text.as_bytes().to_vec() }
}

fn hellos(n: usize) -> Vec<Reply> {
    (0..n).map(|i| body(10 * (i as u64 + 1), "hello")).collect()
}

fn windows(result: &RunResult) -> Vec<(usize, usize, usize)> {
    result.outcomes.iter().map(|o| (o.id, o.issued_after, o.completed_at)).collect()
}

fn client(num: usize, raw: Option<&str>, limit: usize) -> Client {
    Client {
        num,
        addr: "http://localhost:8080".to_string(),
        path: None,
        raw: raw.map(|r| r.to_string()),
        max_outbound_requests: limit,
        stats: false,
    }
}

#[test]
fn five_matching_responses_with_two_in_flight() {
    let result = client(5, Some("hello"), 2).run(None, &hellos(5)).unwrap();
    assert_eq!(result.outcomes.len(), 5);
    assert!(result.outcomes.iter().all(|o| o.matched == Some(true)));
    assert!(result.outcomes.iter().all(|o| o.body == b"hello"));
    assert_eq!(result.mismatches, 0);
    assert_eq!(result.stats, None);
    assert_eq!(windows(&result), vec![(0, 0, 1), (1, 0, 2), (2, 1, 3), (3, 2, 4), (4, 3, 5)]);
}

#[test]
fn a_mismatch_aborts_the_client_run() {
    assert_eq!(client(5, Some("world"), 2).run(None, &hellos(5)), Err(RunError::Mismatch));
    assert_eq!(client(5, Some("world"), 1).run(None, &hellos(1)), Err(RunError::Mismatch));
}

#[test]
fn a_mismatch_aborts_a_fail_fast_run() {
    let config = run(5, 2, Some("world"), FailurePolicy::FailFast);
    assert_eq!(dispatch(config, &hellos(5)), Err(RunError::Mismatch));
}

#[test]
fn a_mismatch_is_recorded_where_the_run_goes_on() {
    let config = run(5, 2, Some("world"), FailurePolicy::Record);
    let result = dispatch(config, &hellos(5)).unwrap();
    assert_eq!(result.outcomes.len(), 5);
    assert!(result.outcomes.iter().any(|o| o.matched == Some(false)));
    assert_eq!(result.mismatches, 5);
}

#[test]
fn a_client_that_asks_for_no_request_is_rejected() {
    assert_eq!(
        client(0, Some("hello"), 2).run(None, &hellos(5)),
        Err(RunError::Config(ConfigError::NoRequests))
    );
    assert_eq!(
        client(0, None, 1).run(None, &Vec::new()),
        Err(RunError::Config(ConfigError::NoRequests))
    );
    assert_eq!(
        client(2, None, 0).run(None, &hellos(5)),
        Err(RunError::Config(ConfigError::NoConcurrency))
    );
}

#[test]
fn a_client_whose_file_cannot_be_read_is_rejected() {
    let mut from_file = client(2, None, 1);
    from_file.path = Some("expected.txt".to_string());
    assert_eq!(
        from_file.run(None, &hellos(2)),
        Err(RunError::Config(ConfigError::UnreadableBody))
    );
    let result = from_file.run(Some("hello".to_string()), &hellos(2)).unwrap();
    assert!(result.outcomes.iter().all(|o| o.matched == Some(true)));
    assert_eq!(from_file.run(Some("world".to_string()), &hellos(2)), Err(RunError::Mismatch));
}

#[test]
fn a_client_without_expectation_takes_every_body() {
    let mut echo = client(3, None, 2);
    echo.stats = true;
    let result = echo.run(None, &hellos(3)).unwrap();
    assert!(result.outcomes.iter().all(|o| o.matched == None));
    assert_eq!(result.stats, Some(Stats { count: 3, total: 60, spread: 600 }));
}

#[test]
fn a_rejected_run_issues_nothing() {
    let config = run(0, 2, Some("hello"), FailurePolicy::FailFast);
    assert_eq!(dispatch(config, &hellos(5)), Err(RunError::Config(ConfigError::NoRequests)));
    let config = run(3, 0, None, FailurePolicy::FailFast);
    assert_eq!(dispatch(config, &hellos(5)), Err(RunError::Config(ConfigError::NoConcurrency)));
}

#[test]
fn exactly_as_many_outcomes_as_requests_for_every_limit() {
    let mut requests: usize = 1;
    while requests <= 7 {
        let mut limit: usize = 1;
        while limit <= requests + 2 {
            let config = run(requests, limit, Some("hello"), FailurePolicy::FailFast);
            let result = dispatch(config, &hellos(requests + 3)).unwrap();
            assert_eq!(result.outcomes.len(), requests);
            let ids: Vec<usize> = result.outcomes.iter().map(|o| o.id).collect();
            assert_eq!(ids, (0..requests).collect::<Vec<usize>>());
            limit += 1;
        }
        requests += 1;
    }
}

#[test]
fn sequential_run_serves_one_request_after_another() {
    let result = dispatch(run(4, 1, None, FailurePolicy::FailFast), &hellos(4)).unwrap();
    assert_eq!(windows(&result), vec![(0, 0, 1), (1, 1, 2), (2, 2, 3), (3, 3, 4)]);
}

#[test]
fn unbounded_run_issues_everything_at_once() {
    let result = dispatch(run(4, 4, None, FailurePolicy::FailFast), &hellos(4)).unwrap();
    assert_eq!(windows(&result), vec![(0, 0, 1), (1, 0, 2), (2, 0, 3), (3, 0, 4)]);
    let result = dispatch(run(4, 9, None, FailurePolicy::FailFast), &hellos(4)).unwrap();
    assert_eq!(windows(&result), vec![(0, 0, 1), (1, 0, 2), (2, 0, 3), (3, 0, 4)]);
}

#[test]
fn never_more_in_flight_than_the_limit() {
    let limit: usize = 3;
    let result = dispatch(run(10, limit, None, FailurePolicy::FailFast), &hellos(10)).unwrap();
    let mut instant: usize = 0;
    while instant < 10 {
        let open = result
            .outcomes
            .iter()
            .filter(|o| o.issued_after <= instant && instant < o.completed_at)
            .count();
        assert!(open <= limit);
        assert!(open >= 1);
        instant += 1;
    }
}

#[test]
fn replayed_run_reports_statistics() {
    let replies = vec![body(10, "a"), body(20, "b"), body(30, "c")];
    let result = dispatch(run(3, 2, None, FailurePolicy::FailFast), &replies).unwrap();
    assert_eq!(result.stats, Some(Stats { count: 3, total: 60, spread: 600 }));
    let elapsed: Vec<u64> = result.outcomes.iter().map(|o| o.elapsed_micros).collect();
    assert_eq!(elapsed, vec![10, 20, 30]);
}

#[test]
fn a_failed_request_aborts_the_run() {
    let replies = vec![body(10, "hello"), Reply::Failure, body(30, "hello")];
    assert_eq!(
        dispatch(run(3, 3, Some("hello"), FailurePolicy::FailFast), &replies),
        Err(RunError::Network)
    );
    assert_eq!(
        dispatch(run(3, 1, Some("hello"), FailurePolicy::Record), &replies),
        Err(RunError::Network)
    );
}

#[test]
fn the_first_fault_decides() {
    let replies = vec![body(10, "hello"), body(20, "other"), Reply::Failure];
    assert_eq!(
        dispatch(run(3, 3, Some("hello"), FailurePolicy::FailFast), &replies),
        Err(RunError::Mismatch)
    );
    assert_eq!(
        dispatch(run(3, 3, Some("hello"), FailurePolicy::Record), &replies),
        Err(RunError::Network)
    );
    let result = dispatch(run(2, 2, Some("hello"), FailurePolicy::Record), &replies).unwrap();
    assert_eq!(result.mismatches, 1);
    assert_eq!(result.outcomes[1].matched, Some(false));
}

#[test]
fn faults_beyond_the_run_do_not_count() {
    let replies = vec![body(10, "hello"), Reply::Failure];
    let result = dispatch(run(1, 1, Some("hello"), FailurePolicy::FailFast), &replies).unwrap();
    assert_eq!(result.outcomes.len(), 1);
}

#[test]
fn too_few_replies_leave_the_run_unfinished() {
    assert_eq!(
        dispatch(run(5, 2, Some("hello"), FailurePolicy::FailFast), &hellos(4)),
        Err(RunError::Unfinished)
    );
    assert_eq!(
        dispatch(run(1, 1, None, FailurePolicy::FailFast), &Vec::new()),
        Err(RunError::Unfinished)
    );
}

#[test]
fn binary_bodies_are_compared_as_base64() {
    let replies = vec![Reply::Body { elapsed_micros: 1, body: vec![0xff, 0xfe] }];
    let result = dispatch(run(1, 1, Some("//4="), FailurePolicy::FailFast), &replies).unwrap();
    assert_eq!(result.outcomes[0].matched, Some(true));
    assert_eq!(result.outcomes[0].body, vec![0xff, 0xfe]);
}
