use std::cell::RefCell;
use std::rc::Rc;

use roa::chain::{run_chain, Middleware, Next, DOUBLE_CONTINUATION};
use roa::context::{Context, Request};
use roa::status::Status;

type Log = Rc<RefCell<Vec<String>>>;

enum Mw {
    Record(String),
    Fail(String),
    DoubleCall(String),
}

impl Middleware<Log> for Mw {
    fn handle(&self, ctx: &mut Context<Log>, next: &mut Next<'_, Self>) -> Result<(), Status> {
        match self {
            Mw::Record(id) => {
                ctx.state.borrow_mut().push(format!("{}-enter", id));
                let r = next.call(ctx);
                ctx.state.borrow_mut().push(format!("{}-exit", id));
                r
            },
            Mw::Fail(id) => {
                ctx.state.borrow_mut().push(format!("{}-enter", id));
                Err(Status::new(503, String::from("refused"), true))
            },
            Mw::DoubleCall(id) => {
                ctx.state.borrow_mut().push(format!("{}-enter", id));
                let first = next.call(ctx);
                assert!(first.is_ok());
                let second = next.call(ctx);
                ctx.state.borrow_mut().push(format!("{}-exit", id));
                second
            },
        }
    }
}

fn fresh(log: &Log) -> Context<Log> {
    Context::new(Request::new(), log.clone())
}

#[test]
fn onion_order_is_kept() {
    let log: Log = Rc::new(RefCell::new(Vec::new()));
    let chain = vec![
        Mw::Record(String::from("A")),
        Mw::Record(String::from("B")),
        Mw::Record(String::from("C")),
    ];
    let mut ctx = fresh(&log);
    let r = run_chain(&chain, &mut ctx);
    assert!(r.is_ok());
    assert_eq!(
        *log.borrow(),
        vec!["A-enter", "B-enter", "C-enter", "C-exit", "B-exit", "A-exit"]
    );
}

#[test]
fn short_circuit_skips_downstream_but_unwinds_upstream() {
    let log: Log = Rc::new(RefCell::new(Vec::new()));
    let chain = vec![
        Mw::Record(String::from("A")),
        Mw::Fail(String::from("F")),
        Mw::Record(String::from("C")),
    ];
    let mut ctx = fresh(&log);
    let r = run_chain(&chain, &mut ctx);
    match r {
        Err(e) => assert_eq!(e.code, 503),
        Ok(()) => panic!("the failing middleware must propagate its status"),
    }
    // C never ran; A still saw its post-continuation code run
    assert_eq!(*log.borrow(), vec!["A-enter", "F-enter", "A-exit"]);
}

#[test]
fn double_continuation_fails_deterministically() {
    let log: Log = Rc::new(RefCell::new(Vec::new()));
    let chain = vec![Mw::DoubleCall(String::from("D")), Mw::Record(String::from("B"))];
    let mut ctx = fresh(&log);
    let r = run_chain(&chain, &mut ctx);
    match r {
        Err(e) => {
            assert_eq!(e.code, DOUBLE_CONTINUATION);
            assert!(!e.expose);
        },
        Ok(()) => panic!("a second invocation must fail"),
    }
    // downstream ran exactly once
    assert_eq!(*log.borrow(), vec!["D-enter", "B-enter", "B-exit", "D-exit"]);
}

#[test]
fn empty_chain_completes_unchanged() {
    let log: Log = Rc::new(RefCell::new(Vec::new()));
    let chain: Vec<Mw> = Vec::new();
    let mut ctx = fresh(&log);
    let r = run_chain(&chain, &mut ctx);
    assert!(r.is_ok());
    assert_eq!(ctx.response.status, 200);
    assert!(log.borrow().is_empty());
}
