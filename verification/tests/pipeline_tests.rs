use old_web_framework::pipeline::{ChainExec, NextCall};

#[test]
fn chain_runs_in_configured_order() {
    let mut run: ChainExec<u64, u64> = ChainExec::new(9, vec![1, 2, 3]);

    match run.next() {
        NextCall::Middleware(step) => assert_eq!(step, 1),
        _ => panic!("step 1 should run first"),
    }
    run.continued();
    match run.next() {
        NextCall::Middleware(step) => assert_eq!(step, 2),
        _ => panic!("step 2 should run second"),
    }
    run.continued();
    match run.next() {
        NextCall::Middleware(step) => assert_eq!(step, 3),
        _ => panic!("step 3 should run third"),
    }
    run.continued();
    match run.next() {
        NextCall::Handler(h) => assert_eq!(h, 9),
        _ => panic!("the handler runs once the chain is exhausted"),
    }
    run.handler_finished();
    assert!(matches!(run.next(), NextCall::Complete));
}

#[test]
fn short_circuit_skips_rest_and_handler() {
    let mut run: ChainExec<u64, u64> = ChainExec::new(9, vec![1, 2, 3]);

    match run.next() {
        NextCall::Middleware(step) => assert_eq!(step, 1),
        _ => panic!("step 1 should run first"),
    }
    // The first step answered with a response: steps 2 and 3 and the
    // handler must never be offered again.
    run.short_circuited();
    assert!(matches!(run.next(), NextCall::Complete));
    assert!(matches!(run.next(), NextCall::Complete));
}

#[test]
fn empty_chain_goes_straight_to_handler() {
    let run: ChainExec<u64, u64> = ChainExec::new(9, vec![]);
    match run.next() {
        NextCall::Handler(h) => assert_eq!(h, 9),
        _ => panic!("an empty chain offers the handler at once"),
    }
}
