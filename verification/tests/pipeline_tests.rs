//! One walk through the whole pipeline on concrete values: expansion,
//! de-duplication, order restoration, validity split, batched execution and
//! presentation.

use pssh::coordinator::{check_results, Coordinator, ExecutionOutcome};
use pssh::dedup::dedup;
use pssh::display::{find_common_suffix, shorten_hostname};
use pssh::expand::expand_expressions;
use pssh::presenter::{DisplayEvent, Presenter};
use pssh::resolve::{order_results, split_valid, ResolvedHost};

fn b(s: &str) -> Vec<u8> {
    s.as_bytes().to_vec()
}

#[test]
fn whole_pipeline_on_a_small_run() {
    // Expansion of two expressions, with an overlap.
    let exprs = vec![b("w[1:2].x.io"), b("w{2,3}.x.io")];
    let names = expand_expressions(&exprs).unwrap();
    assert_eq!(
        names,
        vec![b("w1.x.io"), b("w2.x.io"), b("w2.x.io"), b("w3.x.io")]
    );

    // De-duplication assigns dense indices, first occurrence winning.
    let indexed = dedup(&names);
    assert_eq!(indexed.len(), 3);

    // Resolution completes out of order; w3 does not resolve.
    let arrived = vec![
        ResolvedHost { name: indexed[2].name.clone(), address: None, original_index: 2 },
        ResolvedHost {
            name: indexed[0].name.clone(),
            address: Some(b("192.0.2.1")),
            original_index: 0,
        },
        ResolvedHost {
            name: indexed[1].name.clone(),
            address: Some(b("192.0.2.2")),
            original_index: 1,
        },
    ];
    let ordered = order_results(arrived);
    let (valid, unresolved) = split_valid(&ordered);
    assert_eq!(unresolved, 1);
    assert_eq!(valid.len(), 2);

    // Display names drop the common dotted suffix.
    let valid_names: Vec<Vec<u8>> = valid.iter().map(|h| h.name.clone()).collect();
    let suffix = find_common_suffix(&valid_names);
    assert_eq!(suffix, Some(b(".x.io")));
    let display: Vec<Vec<u8>> = valid
        .iter()
        .map(|h| shorten_hostname(&h.name, &suffix))
        .collect();
    assert_eq!(display, vec![b("w1*"), b("w2*")]);

    // Execution in batches of one: two batches, outcomes aggregated in order.
    let mut c = Coordinator::new(valid, 1);
    let mut p = Presenter::new();
    let mut rendered: Vec<DisplayEvent> = Vec::new();
    loop {
        let batch = match c.next_batch() {
            None => break,
            Some(batch) => batch,
        };
        assert_eq!(batch.len(), 1);
        let host = &batch[0];
        rendered.extend(p.on_line(&shorten_hostname(&host.name, &suffix), &b("done")));
        let results = vec![ExecutionOutcome {
            name: host.name.clone(),
            original_index: host.original_index,
            exit_code: Some(0),
            stdout: b("done\n"),
            stderr: Vec::new(),
            connection_error: None,
        }];
        assert!(check_results(&results, &batch));
        c.batch_done(&results);
    }
    let outcomes = c.finish();
    assert_eq!(outcomes.len(), 2);
    assert_eq!(outcomes[0].original_index, 0);
    assert_eq!(outcomes[1].original_index, 1);
    assert_eq!(outcomes[0].exit_code, Some(0));

    // The rendered stream switched blocks between the two hosts.
    assert!(matches!(&rendered[0], DisplayEvent::OpenBlock(h) if *h == b("w1*")));
    assert!(matches!(&rendered[2], DisplayEvent::CloseBlock(h) if *h == b("w1*")));
    assert!(matches!(&rendered[3], DisplayEvent::OpenBlock(h) if *h == b("w2*")));
}
