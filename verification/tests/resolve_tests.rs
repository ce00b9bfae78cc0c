use pssh::resolve::{order_results, split_valid, ResolvedHost};

fn b(s: &str) -> Vec<u8> {
    s.as_bytes().to_vec()
}

fn host(name: &str, address: Option<&str>, original_index: usize) -> ResolvedHost {
    ResolvedHost {
        name: b(name),
        address: address.map(|a| b(a)),
        original_index,
    }
}

#[test]
fn order_is_restored_regardless_of_arrival_order() {
    // Lookups completed in the order 2, 0, 3, 1.
    let arrived = vec![
        host("c", Some("10.0.0.3"), 2),
        host("a", Some("10.0.0.1"), 0),
        host("d", Some("10.0.0.4"), 3),
        host("b", Some("10.0.0.2"), 1),
    ];
    let ordered = order_results(arrived);
    assert_eq!(ordered.len(), 4);
    let idx: Vec<usize> = ordered.iter().map(|h| h.original_index).collect();
    assert_eq!(idx, vec![0, 1, 2, 3]);
    let names: Vec<Vec<u8>> = ordered.iter().map(|h| h.name.clone()).collect();
    assert_eq!(names, vec![b("a"), b("b"), b("c"), b("d")]);
}

#[test]
fn output_length_equals_input_length_with_failures_kept() {
    let arrived = vec![
        host("ok1", Some("192.0.2.1"), 1),
        host("bad", None, 0),
        host("ok2", Some("192.0.2.2"), 2),
    ];
    let ordered = order_results(arrived);
    assert_eq!(ordered.len(), 3);
    assert_eq!(ordered[0].name, b("bad"));
    assert!(ordered[0].address.is_none());
    assert_eq!(ordered[1].name, b("ok1"));
    assert_eq!(ordered[2].name, b("ok2"));
}

#[test]
fn two_arrival_orders_give_the_same_output() {
    let first = vec![
        host("a", Some("10.0.0.1"), 0),
        host("b", None, 1),
        host("c", Some("10.0.0.3"), 2),
    ];
    let second = vec![
        host("c", Some("10.0.0.3"), 2),
        host("b", None, 1),
        host("a", Some("10.0.0.1"), 0),
    ];
    let o1 = order_results(first);
    let o2 = order_results(second);
    let n1: Vec<Vec<u8>> = o1.iter().map(|h| h.name.clone()).collect();
    let n2: Vec<Vec<u8>> = o2.iter().map(|h| h.name.clone()).collect();
    assert_eq!(n1, n2);
}

#[test]
fn split_keeps_valid_hosts_in_order_and_counts_the_rest() {
    let ordered = vec![
        host("a", Some("10.0.0.1"), 0),
        host("b", None, 1),
        host("c", Some("10.0.0.3"), 2),
        host("d", None, 3),
    ];
    let (valid, failed) = split_valid(&ordered);
    assert_eq!(failed, 2);
    assert_eq!(valid.len(), 2);
    assert_eq!(valid[0].name, b("a"));
    assert_eq!(valid[0].original_index, 0);
    assert_eq!(valid[1].name, b("c"));
    assert_eq!(valid[1].original_index, 2);
}

#[test]
fn split_of_all_valid_counts_zero() {
    let ordered = vec![host("a", Some("10.0.0.1"), 0)];
    let (valid, failed) = split_valid(&ordered);
    assert_eq!(failed, 0);
    assert_eq!(valid.len(), 1);
}

#[test]
fn split_of_empty_list() {
    let (valid, failed) = split_valid(&Vec::new());
    assert!(valid.is_empty());
    assert_eq!(failed, 0);
}
