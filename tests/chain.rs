use std::sync::atomic::{AtomicUsize, Ordering};
use std::sync::{Arc, Mutex};

use rpc_middleware::client::{Flow, Middleware, RpcClientBuilder, Transport};
use rpc_middleware::route::{Cursor, Step};

type Log = Arc<Mutex<Vec<String>>>;
type Reply = Result<String, String>;

struct Tagger {
    name: String,
    log: Log,
    answer: Option<Reply>,
    seen: AtomicUsize,
}

impl Tagger {
    fn new(name: &str, log: &Log) -> Tagger {
        Tagger { name: name.to_string(), log: log.clone(), answer: None, seen: AtomicUsize::new(0) }
    }

    fn answering(name: &str, log: &Log, answer: Reply) -> Tagger {
        Tagger { answer: Some(answer), ..Tagger::new(name, log) }
    }
}

impl Middleware<String, Reply> for Tagger {
    fn handle_request(&self, req: String) -> Flow<String, Reply> {
        self.seen.fetch_add(1, Ordering::SeqCst);
        self.log.lock().unwrap().push(format!("{}-pre", self.name));
        match &self.answer {
            Some(a) => Flow::Respond(a.clone()),
            None => Flow::Forward(req),
        }
    }

    fn handle_response(&self, resp: Reply) -> Reply {
        self.log.lock().unwrap().push(format!("{}-post", self.name));
        resp
    }
}

#[derive(Clone)]
struct Base {
    log: Log,
    calls: Arc<AtomicUsize>,
    fail: bool,
}

impl Base {
    fn new(log: &Log) -> Base {
        Base { log: log.clone(), calls: Arc::new(AtomicUsize::new(0)), fail: false }
    }
}

impl Transport<String, Reply> for Base {
    fn send(&self, req: String) -> Reply {
        self.calls.fetch_add(1, Ordering::SeqCst);
        self.log.lock().unwrap().push("base".to_string());
        if self.fail {
            Err(format!("failed {}", req))
        } else {
            Ok(format!("answer to {}", req))
        }
    }
}

fn new_log() -> Log {
    Arc::new(Mutex::new(Vec::new()))
}

fn entries(log: &Log) -> Vec<String> {
    log.lock().unwrap().clone()
}

#[test]
fn two_middleware_nest_around_the_base_call() {
    let log = new_log();
    let client = RpcClientBuilder::new(Base::new(&log))
        .with(Tagger::new("A", &log))
        .with(Tagger::new("B", &log))
        .build();
    let r = client.call("getSlot".to_string());
    assert_eq!(r, Ok("answer to getSlot".to_string()));
    assert_eq!(entries(&log), vec!["A-pre", "B-pre", "base", "B-post", "A-post"]);
}

#[test]
fn three_middleware_keep_strict_nesting() {
    let log = new_log();
    let client = RpcClientBuilder::new(Base::new(&log))
        .with(Tagger::new("M1", &log))
        .with(Tagger::new("M2", &log))
        .with(Tagger::new("M3", &log))
        .build();
    let _ = client.call("x".to_string());
    assert_eq!(
        entries(&log),
        vec!["M1-pre", "M2-pre", "M3-pre", "base", "M3-post", "M2-post", "M1-post"]
    );
}

#[test]
fn empty_chain_passes_through() {
    let log = new_log();
    let direct = Base::new(&log).send("getBalance".to_string());
    let client = RpcClientBuilder::<Base, Tagger>::new(Base::new(&log)).build();
    let r = client.call("getBalance".to_string());
    assert_eq!(r, direct);
    assert_eq!(entries(&log), vec!["base", "base"]);
}

#[test]
fn empty_chain_passes_errors_through() {
    let log = new_log();
    let mut base = Base::new(&log);
    base.fail = true;
    let client = RpcClientBuilder::<Base, Tagger>::new(base).build();
    assert_eq!(client.call("q".to_string()), Err("failed q".to_string()));
}

#[test]
fn errors_travel_outward_unchanged() {
    let log = new_log();
    let mut base = Base::new(&log);
    base.fail = true;
    let client = RpcClientBuilder::new(base).with(Tagger::new("A", &log)).build();
    assert_eq!(client.call("q".to_string()), Err("failed q".to_string()));
    assert_eq!(entries(&log), vec!["A-pre", "base", "A-post"]);
}

#[test]
fn short_circuit_skips_the_rest_and_the_base() {
    let log = new_log();
    let base = Base::new(&log);
    let calls = base.calls.clone();
    let inner = Arc::new(Tagger::new("C", &log));
    let client = RpcClientBuilder::new(base)
        .with(Tagger::new("A", &log))
        .with(Tagger::answering("B", &log, Err("rejected".to_string())))
        .with_arc(inner.clone())
        .build();
    let r = client.call("q".to_string());
    assert_eq!(r, Err("rejected".to_string()));
    assert_eq!(entries(&log), vec!["A-pre", "B-pre", "A-post"]);
    assert_eq!(calls.load(Ordering::SeqCst), 0);
    assert_eq!(inner.seen.load(Ordering::SeqCst), 0);
}

#[test]
fn short_circuit_at_the_outer_edge() {
    let log = new_log();
    let client = RpcClientBuilder::new(Base::new(&log))
        .with(Tagger::answering("A", &log, Ok("cached".to_string())))
        .with(Tagger::new("B", &log))
        .build();
    assert_eq!(client.call("q".to_string()), Ok("cached".to_string()));
    assert_eq!(entries(&log), vec!["A-pre"]);
}

#[test]
fn same_instance_attached_twice_runs_twice() {
    let log = new_log();
    let shared = Arc::new(Tagger::new("S", &log));
    let client = RpcClientBuilder::new(Base::new(&log))
        .with_arc(shared.clone())
        .with(Tagger::new("T", &log))
        .with_arc(shared.clone())
        .build();
    let _ = client.call("q".to_string());
    assert_eq!(shared.seen.load(Ordering::SeqCst), 2);
    assert_eq!(entries(&log), vec!["S-pre", "T-pre", "S-pre", "base", "S-post", "T-post", "S-post"]);
}

#[test]
fn shared_handle_observes_calls() {
    let log = new_log();
    let counter = Arc::new(Tagger::new("count", &log));
    let client = RpcClientBuilder::new(Base::new(&log)).with_arc(counter.clone()).build();
    assert_eq!(counter.seen.load(Ordering::SeqCst), 0);
    let _ = client.call("a".to_string());
    let _ = client.call("b".to_string());
    let _ = client.call("c".to_string());
    assert_eq!(counter.seen.load(Ordering::SeqCst), 3);
}

#[test]
fn cloned_client_shares_the_base() {
    let log = new_log();
    let base = Base::new(&log);
    let calls = base.calls.clone();
    let client = RpcClientBuilder::new(base).with(Rewriter).build();
    let other = client.clone();
    assert_eq!(client.call("a".to_string()), Ok("ANSWER TO A+AUTH".to_string()));
    assert_eq!(other.call("b".to_string()), Ok("ANSWER TO B+AUTH".to_string()));
    assert_eq!(calls.load(Ordering::SeqCst), 2);
}

#[test]
fn traced_call_returns_the_chain_response() {
    let log = new_log();
    let client = RpcClientBuilder::new(Base::new(&log)).with(Tagger::new("A", &log)).build();
    let (r, _) = client.call_traced("q".to_string());
    assert_eq!(r, Ok("answer to q".to_string()));
}

#[derive(Clone)]
struct Rewriter;

impl Middleware<String, Reply> for Rewriter {
    fn handle_request(&self, req: String) -> Flow<String, Reply> {
        Flow::Forward(format!("{}+auth", req))
    }

    fn handle_response(&self, resp: Reply) -> Reply {
        resp.map(|s| s.to_uppercase())
    }
}

#[test]
fn middleware_may_change_request_and_response() {
    let log = new_log();
    let client = RpcClientBuilder::new(Base::new(&log)).with(Rewriter).with(Rewriter).build();
    assert_eq!(client.call("q".to_string()), Ok("ANSWER TO Q+AUTH+AUTH".to_string()));
}

#[test]
fn cursor_walks_a_full_chain() {
    let mut c = Cursor::start(2);
    let mut steps = Vec::new();
    loop {
        let s = c.step();
        steps.push(s);
        if s == Step::Done {
            break;
        }
        c.advance(true);
    }
    assert_eq!(
        steps,
        vec![Step::Pre(0), Step::Pre(1), Step::Base, Step::Post(1), Step::Post(0), Step::Done]
    );
}

#[test]
fn cursor_turns_at_a_refusal() {
    let mut c = Cursor::start(3);
    assert_eq!(c.step(), Step::Pre(0));
    c.advance(true);
    assert_eq!(c.step(), Step::Pre(1));
    c.advance(false);
    assert_eq!(c.step(), Step::Post(0));
    c.advance(true);
    assert_eq!(c.step(), Step::Done);
}

#[test]
fn cursor_on_empty_chain_calls_base_only() {
    let mut c = Cursor::start(0);
    assert_eq!(c.step(), Step::Base);
    c.advance(true);
    assert_eq!(c.step(), Step::Done);
}
