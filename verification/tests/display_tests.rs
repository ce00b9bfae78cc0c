use pssh::display::{find_common_suffix, shorten_hostname};

fn b(s: &str) -> Vec<u8> {
    s.as_bytes().to_vec()
}

#[test]
fn dot_prefixed_common_suffix_is_found_and_shortened() {
    let names = vec![b("a.x.com"), b("b.x.com")];
    let suffix = find_common_suffix(&names);
    assert_eq!(suffix, Some(b(".x.com")));
    assert_eq!(shorten_hostname(&names[0], &suffix), b("a*"));
    assert_eq!(shorten_hostname(&names[1], &suffix), b("b*"));
}

#[test]
fn no_common_suffix_leaves_names_unchanged() {
    let names = vec![b("a.com"), b("b.org")];
    let suffix = find_common_suffix(&names);
    assert_eq!(suffix, None);
    assert_eq!(shorten_hostname(&names[0], &suffix), b("a.com"));
    assert_eq!(shorten_hostname(&names[1], &suffix), b("b.org"));
}

#[test]
fn single_host_is_never_shortened() {
    let names = vec![b("only.x.com")];
    assert_eq!(find_common_suffix(&names), None);
}

#[test]
fn empty_host_list_has_no_suffix() {
    assert_eq!(find_common_suffix(&Vec::new()), None);
}

#[test]
fn common_suffix_is_cut_down_to_its_first_dot() {
    // The longest common suffix is "x.com"; the dot-led part common to all
    // is ".com", and that is what shortening uses.
    let names = vec![b("ax.com"), b("bx.com")];
    let suffix = find_common_suffix(&names);
    assert_eq!(suffix, Some(b(".com")));
    assert_eq!(shorten_hostname(&names[0], &suffix), b("ax*"));
    assert_eq!(shorten_hostname(&names[1], &suffix), b("bx*"));
}

#[test]
fn names_without_dots_share_no_dot_led_suffix() {
    let names = vec![b("same"), b("same")];
    // The names hold no dot, so no dot-led suffix is common to them.
    assert_eq!(find_common_suffix(&names), None);
}

#[test]
fn three_hosts_with_common_domain() {
    let names = vec![b("w1.prod.example"), b("w2.prod.example"), b("db.prod.example")];
    let suffix = find_common_suffix(&names);
    assert_eq!(suffix, Some(b(".prod.example")));
    assert_eq!(shorten_hostname(&names[2], &suffix), b("db*"));
}

#[test]
fn name_not_ending_with_the_suffix_is_unchanged() {
    let suffix = Some(b(".x.com"));
    assert_eq!(shorten_hostname(&b("other.y.org"), &suffix), b("other.y.org"));
}
