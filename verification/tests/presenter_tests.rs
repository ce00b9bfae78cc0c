use pssh::presenter::{DisplayEvent, Presenter};

fn b(s: &str) -> Vec<u8> {
    s.as_bytes().to_vec()
}

#[test]
fn first_line_opens_a_block() {
    let mut p = Presenter::new();
    let evs = p.on_line(&b("h1"), &b("hello"));
    assert_eq!(evs.len(), 2);
    assert!(matches!(&evs[0], DisplayEvent::OpenBlock(h) if *h == b("h1")));
    assert!(matches!(&evs[1], DisplayEvent::BlockLine(h, l) if *h == b("h1") && *l == b("hello")));
}

#[test]
fn same_host_appends_without_reopening() {
    let mut p = Presenter::new();
    p.on_line(&b("h1"), &b("one"));
    let evs = p.on_line(&b("h1"), &b("two"));
    assert_eq!(evs.len(), 1);
    assert!(matches!(&evs[0], DisplayEvent::BlockLine(h, l) if *h == b("h1") && *l == b("two")));
}

#[test]
fn different_host_closes_then_opens() {
    let mut p = Presenter::new();
    p.on_line(&b("h1"), &b("one"));
    let evs = p.on_line(&b("h2"), &b("two"));
    assert_eq!(evs.len(), 3);
    assert!(matches!(&evs[0], DisplayEvent::CloseBlock(h) if *h == b("h1")));
    assert!(matches!(&evs[1], DisplayEvent::OpenBlock(h) if *h == b("h2")));
    assert!(matches!(&evs[2], DisplayEvent::BlockLine(h, l) if *h == b("h2") && *l == b("two")));
}

#[test]
fn no_two_hosts_share_a_block_across_a_stream() {
    // An interleaved stream of lines from three hosts: between any two
    // consecutive lines of different hosts a close/open transition occurs.
    let mut p = Presenter::new();
    let stream = [("a", "1"), ("a", "2"), ("b", "1"), ("a", "3"), ("c", "1"), ("c", "2")];
    let mut rendered: Vec<DisplayEvent> = Vec::new();
    for (h, l) in stream.iter() {
        rendered.extend(p.on_line(&b(h), &b(l)));
    }
    let mut open: Option<Vec<u8>> = None;
    for ev in rendered.iter() {
        match ev {
            DisplayEvent::OpenBlock(h) => {
                assert!(open.is_none());
                open = Some(h.clone());
            }
            DisplayEvent::CloseBlock(h) => {
                assert_eq!(open.as_ref(), Some(h));
                open = None;
            }
            DisplayEvent::BlockLine(h, _) => {
                assert_eq!(open.as_ref(), Some(h));
            }
        }
    }
}

#[test]
fn host_done_closes_its_own_open_block() {
    let mut p = Presenter::new();
    p.on_line(&b("h1"), &b("one"));
    let evs = p.on_host_done(&b("h1"));
    assert_eq!(evs.len(), 1);
    assert!(matches!(&evs[0], DisplayEvent::CloseBlock(h) if *h == b("h1")));
    assert!(p.current.is_none());
}

#[test]
fn host_done_leaves_another_hosts_block_alone() {
    let mut p = Presenter::new();
    p.on_line(&b("h2"), &b("one"));
    let evs = p.on_host_done(&b("h1"));
    assert!(evs.is_empty());
    assert_eq!(p.current, Some(b("h2")));
}

#[test]
fn host_done_with_no_open_block_writes_nothing() {
    let mut p = Presenter::new();
    let evs = p.on_host_done(&b("h1"));
    assert!(evs.is_empty());
}
