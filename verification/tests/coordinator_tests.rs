use pssh::coordinator::{check_hosts_ready, check_results, Coordinator, ExecutionOutcome, Phase};
use pssh::resolve::ResolvedHost;

fn b(s: &str) -> Vec<u8> {
    s.as_bytes().to_vec()
}

fn host(name: &str, original_index: usize) -> ResolvedHost {
    ResolvedHost {
        name: b(name),
        address: Some(b("192.0.2.7")),
        original_index,
    }
}

fn ok_outcome(name: &str, original_index: usize, code: i32) -> ExecutionOutcome {
    ExecutionOutcome {
        name: b(name),
        original_index,
        exit_code: Some(code),
        stdout: Vec::new(),
        stderr: Vec::new(),
        connection_error: None,
    }
}

fn failed_outcome(name: &str, original_index: usize, message: &str) -> ExecutionOutcome {
    ExecutionOutcome {
        name: b(name),
        original_index,
        exit_code: None,
        stdout: Vec::new(),
        stderr: Vec::new(),
        connection_error: Some(b(message)),
    }
}

fn hosts(names: &[&str]) -> Vec<ResolvedHost> {
    names
        .iter()
        .enumerate()
        .map(|(i, n)| host(n, i))
        .collect()
}

#[test]
fn batches_never_exceed_the_concurrency_limit() {
    let mut c = Coordinator::new(hosts(&["a", "b", "c", "d", "e"]), 2);
    let mut sizes = Vec::new();
    loop {
        match c.next_batch() {
            None => break,
            Some(batch) => {
                assert!(batch.len() <= 2);
                sizes.push(batch.len());
                let results: Vec<ExecutionOutcome> = batch
                    .iter()
                    .map(|h| {
                        ok_outcome(
                            std::str::from_utf8(&h.name).unwrap(),
                            h.original_index,
                            0,
                        )
                    })
                    .collect();
                assert!(check_results(&results, &batch));
                c.batch_done(&results);
            }
        }
    }
    assert_eq!(sizes, vec![2, 2, 1]);
    let outcomes = c.finish();
    assert_eq!(outcomes.len(), 5);
}

#[test]
fn limit_wider_than_host_list_gives_one_batch() {
    let mut c = Coordinator::new(hosts(&["a", "b"]), 100);
    let batch = c.next_batch().unwrap();
    assert_eq!(batch.len(), 2);
}

#[test]
fn batches_cover_hosts_in_order() {
    let mut c = Coordinator::new(hosts(&["a", "b", "c"]), 2);
    let first = c.next_batch().unwrap();
    assert_eq!(first[0].name, b("a"));
    assert_eq!(first[1].name, b("b"));
    let results: Vec<ExecutionOutcome> = first
        .iter()
        .map(|h| ok_outcome(std::str::from_utf8(&h.name).unwrap(), h.original_index, 0))
        .collect();
    c.batch_done(&results);
    let second = c.next_batch().unwrap();
    assert_eq!(second.len(), 1);
    assert_eq!(second[0].name, b("c"));
}

#[test]
fn connection_failure_does_not_suppress_other_outcomes() {
    let mut c = Coordinator::new(hosts(&["a", "b", "c", "d"]), 2);

    // First batch: "a" fails to connect, "b" succeeds; results arrive with
    // the failure last.
    let b1 = c.next_batch().unwrap();
    let r1 = vec![ok_outcome("b", 1, 0), failed_outcome("a", 0, "unreachable")];
    assert!(check_results(&r1, &b1));
    c.batch_done(&r1);

    // Second batch still runs and produces outcomes.
    let b2 = c.next_batch().unwrap();
    assert_eq!(b2.len(), 2);
    let r2 = vec![ok_outcome("d", 3, 7), ok_outcome("c", 2, 0)];
    assert!(check_results(&r2, &b2));
    c.batch_done(&r2);

    assert!(c.next_batch().is_none());
    let outcomes = c.finish();
    assert_eq!(outcomes.len(), 4);
    // Outcomes are in original-index order, the failure among them.
    let idx: Vec<usize> = outcomes.iter().map(|o| o.original_index).collect();
    assert_eq!(idx, vec![0, 1, 2, 3]);
    assert_eq!(outcomes[0].connection_error, Some(b("unreachable")));
    assert_eq!(outcomes[0].exit_code, None);
    assert_eq!(outcomes[1].exit_code, Some(0));
    assert_eq!(outcomes[3].exit_code, Some(7));
}

#[test]
fn phase_walks_idle_awaiting_done() {
    let mut c = Coordinator::new(hosts(&["a"]), 1);
    assert_eq!(c.phase, Phase::Idle);
    let batch = c.next_batch().unwrap();
    assert_eq!(c.phase, Phase::Awaiting);
    let results = vec![ok_outcome("a", 0, 0)];
    assert!(check_results(&results, &batch));
    c.batch_done(&results);
    assert_eq!(c.phase, Phase::Idle);
    assert!(c.next_batch().is_none());
    assert_eq!(c.phase, Phase::Done);
}

#[test]
fn check_results_rejects_wrong_count() {
    let batch = vec![host("a", 0), host("b", 1)];
    let results = vec![ok_outcome("a", 0, 0)];
    assert!(!check_results(&results, &batch));
}

#[test]
fn check_results_rejects_duplicate_indices() {
    let batch = vec![host("a", 0), host("b", 1)];
    let results = vec![ok_outcome("a", 0, 0), ok_outcome("a", 0, 1)];
    assert!(!check_results(&results, &batch));
}

#[test]
fn check_results_rejects_wrong_name() {
    let batch = vec![host("a", 0)];
    let results = vec![ok_outcome("z", 0, 0)];
    assert!(!check_results(&results, &batch));
}

#[test]
fn ready_check_accepts_an_ordered_valid_list() {
    assert!(check_hosts_ready(&hosts(&["a", "b", "c"])));
    assert!(check_hosts_ready(&Vec::new()));
}

#[test]
fn ready_check_rejects_a_missing_address() {
    let list = vec![
        host("a", 0),
        ResolvedHost { name: b("b"), address: None, original_index: 1 },
    ];
    assert!(!check_hosts_ready(&list));
}

#[test]
fn ready_check_rejects_unordered_indices() {
    let list = vec![host("b", 1), host("a", 0)];
    assert!(!check_hosts_ready(&list));
}

#[test]
fn ready_check_rejects_a_duplicate_index() {
    let list = vec![host("a", 0), host("a", 0)];
    assert!(!check_hosts_ready(&list));
}

#[test]
fn empty_host_list_is_done_at_once() {
    let mut c = Coordinator::new(Vec::new(), 3);
    assert!(c.next_batch().is_none());
    let outcomes = c.finish();
    assert!(outcomes.is_empty());
}
