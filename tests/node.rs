use linda::message::{IpAddr, LindaError, Message, NodeAddr};
use linda::node::{finish_blocking, inp, rdp, start_blocking, Action, Blocking, LocalStore, Worker};
use linda::tuple::{ComparisonOperator, Request, Tuple, Value};

struct Node {
    worker: Worker,
    store: LocalStore,
}

fn addr(port: u16) -> NodeAddr {
    NodeAddr { ip: IpAddr::V4(0x7f00_0001), port }
}

/// Three nodes A, B, C on a ring A -> B -> C -> A.
fn ring() -> Vec<Node> {
    (0..3)
        .map(|i| Node { worker: Worker::new(addr(5000 + i)), store: LocalStore::new() })
        .collect()
}

/// Hands `msg`, sent by node `from`, along the ring until some node keeps it;
/// gives that node's index and its action.
fn circulate(nodes: &mut Vec<Node>, from: usize, msg: Message) -> (usize, Action) {
    let mut at = (from + 1) % nodes.len();
    let mut msg = msg;
    for _ in 0..10 {
        let node = &mut nodes[at];
        match node.worker.route(&mut node.store, msg) {
            Action::Send(next) => {
                msg = next;
                at = (at + 1) % 3;
            }
            other => return (at, other),
        }
    }
    panic!("message never settled");
}

fn out(nodes: &mut Vec<Node>, at: usize, t: Tuple<Value>) {
    let me = nodes[at].worker.addr;
    let (settled, act) = circulate(nodes, at, Message::value(t, me));
    assert_eq!(settled, at);
    assert!(matches!(act, Action::Nothing));
}

/// A blocking `in` (`keep` false) or `rd` (`keep` true) at node `at`.
fn blocking(
    nodes: &mut Vec<Node>,
    at: usize,
    pattern: Tuple<Request>,
    keep: bool,
) -> Result<Tuple<Value>, LindaError> {
    let me = nodes[at].worker.addr;
    match start_blocking(&mut nodes[at].store, pattern.clone(), me) {
        Blocking::Done(t) => finish_blocking(&mut nodes[at].store, Some(t), keep),
        Blocking::Issue(msg) => {
            nodes[at].worker.set_pending(pattern);
            let (settled, act) = circulate(nodes, at, msg);
            let received = match act {
                Action::Deliver(t) => {
                    assert_eq!(settled, at);
                    Some(t)
                }
                _ => None,
            };
            finish_blocking(&mut nodes[at].store, received, keep)
        }
    }
}

fn any(v: Value) -> Request {
    Request::new(v, ComparisonOperator::ANY)
}

#[test]
fn local_round_trip() {
    let mut nodes = ring();
    out(&mut nodes, 0, Tuple(vec![Value::integer(1), Value::string(String::from("x"))]));
    assert_eq!(nodes[0].store.len(), 1);
    let pattern = Tuple(vec![any(Value::Int(None)), any(Value::String(None))]);
    let got = inp(&mut nodes[0].store, &pattern).unwrap();
    assert_eq!(got, Tuple(vec![Value::integer(1), Value::string(String::from("x"))]));
    assert_eq!(nodes[0].store.len(), 0);
}

#[test]
fn remote_satisfaction() {
    let mut nodes = ring();
    out(&mut nodes, 1, Tuple(vec![Value::integer(42)]));
    assert_eq!(nodes[1].store.len(), 1);
    let pattern = Tuple(vec![Request::new(Value::integer(42), ComparisonOperator::EQ)]);
    let got = blocking(&mut nodes, 0, pattern, false).unwrap();
    assert_eq!(got, Tuple(vec![Value::integer(42)]));
    assert_eq!(nodes[1].store.len(), 0);
    assert_eq!(nodes[0].store.len(), 0);
    assert!(nodes[0].worker.pending.is_none());
}

#[test]
fn request_times_out() {
    let mut nodes = ring();
    let pattern = Tuple(vec![Request::new(
        Value::string(String::from("nope")),
        ComparisonOperator::EQ,
    )]);
    let me = nodes[0].worker.addr;
    let msg = match start_blocking(&mut nodes[0].store, pattern.clone(), me) {
        Blocking::Issue(m) => m,
        Blocking::Done(_) => panic!("nothing is stored"),
    };
    nodes[0].worker.set_pending(pattern);
    let (settled, act) = circulate(&mut nodes, 0, msg);
    assert_eq!(settled, 0);
    assert!(matches!(act, Action::Nothing));
    assert!(matches!(
        finish_blocking(&mut nodes[0].store, None, false),
        Err(LindaError::Timeout)
    ));
}

#[test]
fn read_preserves() {
    let mut nodes = ring();
    out(&mut nodes, 0, Tuple(vec![Value::integer(7)]));
    let pattern = Tuple(vec![any(Value::Int(None))]);
    let got = blocking(&mut nodes, 0, pattern.clone(), true).unwrap();
    assert_eq!(got, Tuple(vec![Value::integer(7)]));
    let again = inp(&mut nodes[0].store, &pattern).unwrap();
    assert_eq!(again, Tuple(vec![Value::integer(7)]));
}

#[test]
fn ordering_within_a_node() {
    let mut nodes = ring();
    out(&mut nodes, 0, Tuple(vec![Value::string(String::from("first"))]));
    out(&mut nodes, 0, Tuple(vec![Value::string(String::from("second"))]));
    let pattern = Tuple(vec![any(Value::String(None))]);
    let first = inp(&mut nodes[0].store, &pattern).unwrap();
    assert_eq!(first, Tuple(vec![Value::string(String::from("first"))]));
    let second = inp(&mut nodes[0].store, &pattern).unwrap();
    assert_eq!(second, Tuple(vec![Value::string(String::from("second"))]));
    assert!(matches!(inp(&mut nodes[0].store, &pattern), Err(LindaError::NoTuple)));
}

#[test]
fn rdp_moves_the_tuple_to_the_end() {
    let mut store = LocalStore::new();
    store.add(Tuple(vec![Value::integer(1)]));
    store.add(Tuple(vec![Value::integer(2)]));
    let pattern = Tuple(vec![Request::new(Value::integer(1), ComparisonOperator::EQ)]);
    let got = rdp(&mut store, &pattern).unwrap();
    assert_eq!(got, Tuple(vec![Value::integer(1)]));
    assert_eq!(store.len(), 2);
    assert_eq!(*store.get(0), Tuple(vec![Value::integer(2)]));
    assert_eq!(*store.get(1), Tuple(vec![Value::integer(1)]));
    let none = Tuple(vec![Request::new(Value::integer(3), ComparisonOperator::EQ)]);
    assert!(matches!(rdp(&mut store, &none), Err(LindaError::NoTuple)));
}

#[test]
fn foreign_messages_pass_on() {
    let mut w = Worker::new(addr(1));
    let mut store = LocalStore::new();
    let v = Message::value(Tuple(vec![Value::integer(3)]), addr(2));
    match w.route(&mut store, v) {
        Action::Send(m) => assert_eq!(m, Message::value(Tuple(vec![Value::integer(3)]), addr(2))),
        _ => panic!("should pass on"),
    }
    let placeholder = Message::value(Tuple(vec![Value::Int(None)]), addr(1));
    assert!(matches!(w.route(&mut store, placeholder), Action::Nothing));
    assert_eq!(store.len(), 0);
    let r = Message::request(Tuple(vec![any(Value::Int(None))]), addr(2));
    match w.route(&mut store, r) {
        Action::Send(m) => assert_eq!(
            m,
            Message::request(Tuple(vec![any(Value::Int(None))]), addr(2))
        ),
        _ => panic!("should pass on"),
    }
}
