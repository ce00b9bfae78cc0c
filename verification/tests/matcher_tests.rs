use pssh::matcher::{match_all, match_hosts, parse_known_hosts, MatchError};

fn b(s: &str) -> Vec<u8> {
    s.as_bytes().to_vec()
}

fn bs(items: &[&str]) -> Vec<Vec<u8>> {
    items.iter().map(|s| b(s)).collect()
}

#[test]
fn pattern_filters_corpus_preserving_order() {
    let corpus = bs(&["web-1", "db-1", "web-2", "cache-1"]);
    let r = match_hosts(&b("^web"), &corpus).unwrap();
    assert_eq!(r, bs(&["web-1", "web-2"]));
}

#[test]
fn search_semantics_not_anchored() {
    let corpus = bs(&["a-prod-1", "a-dev-1"]);
    let r = match_hosts(&b("prod"), &corpus).unwrap();
    assert_eq!(r, bs(&["a-prod-1"]));
}

#[test]
fn self_anchoring_pattern_matches_full_text() {
    let corpus = bs(&["db1", "db12", "xdb1"]);
    let r = match_hosts(&b("^db1$"), &corpus).unwrap();
    assert_eq!(r, bs(&["db1"]));
}

#[test]
fn invalid_pattern_is_fatal() {
    let corpus = bs(&["web-1"]);
    assert_eq!(match_hosts(&b("["), &corpus), Err(MatchError::InvalidPattern));
}

#[test]
fn invalid_pattern_is_fatal_even_on_empty_corpus() {
    assert_eq!(
        match_hosts(&b("(unclosed"), &Vec::new()),
        Err(MatchError::InvalidPattern)
    );
}

#[test]
fn matching_nothing_gives_empty_list() {
    let corpus = bs(&["web-1", "web-2"]);
    let r = match_hosts(&b("zzz"), &corpus).unwrap();
    assert!(r.is_empty());
}

#[test]
fn several_patterns_concatenate_their_matches() {
    let corpus = bs(&["web-1", "db-1", "web-2"]);
    let r = match_all(&bs(&["^db", "^web"]), &corpus).unwrap();
    assert_eq!(r, bs(&["db-1", "web-1", "web-2"]));
}

#[test]
fn one_bad_pattern_rejects_the_whole_set() {
    let corpus = bs(&["web-1"]);
    assert_eq!(
        match_all(&bs(&["^web", "("]), &corpus),
        Err(MatchError::InvalidPattern)
    );
}

#[test]
fn known_hosts_lines_reduce_to_their_first_field() {
    let content = b("host1.example ssh-rsa AAAA\nhost2.example ssh-ed25519 BBBB\n");
    let r = parse_known_hosts(&content);
    assert_eq!(r, bs(&["host1.example", "host2.example"]));
}

#[test]
fn known_hosts_final_newline_is_optional() {
    let r = parse_known_hosts(&b("h1 k\nh2 k"));
    assert_eq!(r, bs(&["h1", "h2"]));
}

#[test]
fn known_hosts_carriage_returns_are_stripped() {
    let r = parse_known_hosts(&b("h1 key\r\nh2 key\r\n"));
    assert_eq!(r, bs(&["h1", "h2"]));
}

#[test]
fn known_hosts_line_without_space_is_the_name() {
    let r = parse_known_hosts(&b("bare-host\n"));
    assert_eq!(r, bs(&["bare-host"]));
}

#[test]
fn known_hosts_empty_file_yields_no_names() {
    let r = parse_known_hosts(&Vec::new());
    assert!(r.is_empty());
}

#[test]
fn known_hosts_empty_line_yields_empty_name() {
    let r = parse_known_hosts(&b("h1 k\n\nh2 k\n"));
    assert_eq!(r, bs(&["h1", "", "h2"]));
}
