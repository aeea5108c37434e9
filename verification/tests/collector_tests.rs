use dom_builder::collector::{run_fetch, script_reply, Collector, FetchEvent, FetchOutcome};

#[test]
fn aggregate_order_matches_submission_order() {
    let mut c: Collector<u64> = Collector::new();
    let i1 = c.submit("u1".to_string());
    let i2 = c.submit("u2".to_string());
    let i3 = c.submit("u3".to_string());
    assert_eq!((i1, i2, i3), (0, 1, 2));
    assert!(!c.all_done());
    // Workers complete out of order.
    c.deliver(i3, 103);
    c.deliver(i1, 101);
    c.deliver(i2, 102);
    assert!(c.all_done());
    assert_eq!(c.finalize(), vec![101, 102, 103]);
}

#[test]
fn failed_fetch_still_contributes_a_terminal_entry() {
    let mut c: Collector<Vec<u8>> = Collector::new();
    let bad = c.submit("fail.js".to_string());
    let good = c.submit("ok.js".to_string());
    // The succeeding worker finishes first; the failing one still replies
    // with the empty sentinel, so finalization cannot stall.
    let ok_events = vec![
        FetchEvent::Payload(vec![1, 2]),
        FetchEvent::Payload(vec![3]),
        FetchEvent::Done(true),
    ];
    c.deliver(good, script_reply(run_fetch(&ok_events)));
    let bad_events = vec![FetchEvent::Payload(vec![9]), FetchEvent::Done(false)];
    c.deliver(bad, script_reply(run_fetch(&bad_events)));
    assert!(c.all_done());
    let agg = c.finalize();
    assert_eq!(agg.len(), 2);
    assert_eq!(agg[0], Vec::<u8>::new());
    assert_eq!(agg[1], vec![1, 2, 3]);
}

#[test]
fn fetch_accumulates_chunks_in_order() {
    let events = vec![
        FetchEvent::Payload(vec![10, 20]),
        FetchEvent::Payload(vec![]),
        FetchEvent::Payload(vec![30]),
        FetchEvent::Done(true),
    ];
    match run_fetch(&events) {
        FetchOutcome::Success(b) => assert_eq!(b, vec![10, 20, 30]),
        FetchOutcome::Failure => panic!("fetch should succeed"),
    }
}

#[test]
fn fetch_stops_at_the_first_terminal_signal() {
    let events = vec![
        FetchEvent::Payload(vec![1]),
        FetchEvent::Done(true),
        FetchEvent::Payload(vec![2]),
    ];
    match run_fetch(&events) {
        FetchOutcome::Success(b) => assert_eq!(b, vec![1]),
        FetchOutcome::Failure => panic!("fetch should succeed"),
    }
}

#[test]
fn style_aggregate_concatenates_rule_sets_in_order() {
    let mut c: Collector<Vec<u64>> = Collector::new();
    let a = c.submit("a.css".to_string());
    let b = c.submit("b.css".to_string());
    let d = c.submit("c.css".to_string());
    c.deliver(b, vec![]);
    c.deliver(d, vec![31]);
    c.deliver(a, vec![11, 12]);
    assert_eq!(c.finalize_concat(), vec![11, 12, 31]);
}

#[test]
fn one_stylesheet_yields_a_one_element_aggregate() {
    // The discovery side of this scenario is covered in the builder tests:
    // a `link rel="stylesheet" href="a.css"` followed by a self-close
    // yields exactly one submission.
    let mut c: Collector<Vec<u8>> = Collector::new();
    let idx = c.submit("a.css".to_string());
    assert_eq!(idx, 0);
    let events = vec![FetchEvent::Payload(vec![42]), FetchEvent::Done(true)];
    c.deliver(idx, script_reply(run_fetch(&events)));
    assert!(c.all_done());
    let agg = c.finalize();
    assert_eq!(agg.len(), 1);
    assert_eq!(agg[0], vec![42]);
}

#[test]
fn empty_collector_finalizes_to_an_empty_aggregate() {
    let c: Collector<Vec<u8>> = Collector::new();
    assert!(c.all_done());
    assert!(c.finalize().is_empty());
}
