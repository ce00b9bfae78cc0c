use pssh::dedup::dedup;

fn b(s: &str) -> Vec<u8> {
    s.as_bytes().to_vec()
}

fn names(hosts: &[pssh::dedup::IndexedHost]) -> Vec<Vec<u8>> {
    hosts.iter().map(|h| h.name.clone()).collect()
}

fn indices(hosts: &[pssh::dedup::IndexedHost]) -> Vec<usize> {
    hosts.iter().map(|h| h.original_index).collect()
}

#[test]
fn first_occurrence_wins_and_order_is_stable() {
    let input = vec![b("b"), b("a"), b("b")];
    let out = dedup(&input);
    assert_eq!(names(&out), vec![b("b"), b("a")]);
    assert_eq!(indices(&out), vec![0, 1]);
    assert_eq!(out[0].original_index, 0);
}

#[test]
fn dedup_of_deduped_list_is_unchanged() {
    let input = vec![b("w1"), b("w2"), b("w1"), b("w3"), b("w2")];
    let once = names(&dedup(&input));
    let twice = names(&dedup(&once));
    assert_eq!(once, twice);
    assert_eq!(once, vec![b("w1"), b("w2"), b("w3")]);
}

#[test]
fn dedup_empty_list() {
    let out = dedup(&Vec::new());
    assert!(out.is_empty());
}

#[test]
fn dedup_all_equal_keeps_one() {
    let input = vec![b("h"), b("h"), b("h")];
    let out = dedup(&input);
    assert_eq!(names(&out), vec![b("h")]);
    assert_eq!(indices(&out), vec![0]);
}

#[test]
fn dedup_indices_are_dense_in_output_order() {
    let input = vec![b("x"), b("y"), b("x"), b("z")];
    let out = dedup(&input);
    assert_eq!(indices(&out), vec![0, 1, 2]);
    assert_eq!(names(&out), vec![b("x"), b("y"), b("z")]);
}
