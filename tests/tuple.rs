use linda::codec::Serializable;
use linda::message::{IpAddr, Message, MessageType, NodeAddr};
use linda::tuple::{ComparisonOperator, Request, Tuple, Value};

fn bits(f: f64) -> u64 {
    f.to_bits()
}

fn check_value(value: Value) {
    let bytes = value.to_bytes();
    let mut rest: &[u8] = &bytes[..];
    assert_eq!(value, Value::from_bytes(&mut rest).unwrap());
    assert!(rest.is_empty());
}

fn check_request(request: Request) {
    let bytes = request.to_bytes();
    let mut rest: &[u8] = &bytes[..];
    assert_eq!(request, Request::from_bytes(&mut rest).unwrap());
    assert!(rest.is_empty());
}

fn check_values(tuple: Tuple<Value>) {
    let bytes = tuple.to_bytes();
    let mut rest: &[u8] = &bytes[..];
    assert_eq!(tuple, Tuple::<Value>::from_bytes(&mut rest).unwrap());
    assert!(rest.is_empty());
}

fn check_requests(tuple: Tuple<Request>) {
    let bytes = tuple.to_bytes();
    let mut rest: &[u8] = &bytes[..];
    assert_eq!(tuple, Tuple::<Request>::from_bytes(&mut rest).unwrap());
    assert!(rest.is_empty());
}

fn check_message(message: Message) {
    let bytes = message.to_bytes();
    let mut rest: &[u8] = &bytes[..];
    assert_eq!(message, Message::from_bytes(&mut rest).unwrap());
    assert!(rest.is_empty());
}

fn localhost_v4(port: u16) -> NodeAddr {
    NodeAddr { ip: IpAddr::V4(0x7f00_0001), port }
}

fn localhost_v6(port: u16) -> NodeAddr {
    NodeAddr { ip: IpAddr::V6(1), port }
}

#[test]
fn serialize_value() {
    check_value(Value::integer(1));
    check_value(Value::float(bits(3.14)));
    check_value(Value::string(String::new()));
    check_value(Value::string(String::from("test")));
    check_value(Value::Int(None));
    check_value(Value::Float(None));
    check_value(Value::String(None));
}

#[test]
fn serialize_request() {
    check_request(Request::new(Value::Int(None), ComparisonOperator::ANY));
    check_request(Request::new(Value::float(bits(3.14)), ComparisonOperator::EQ));
    check_request(Request::new(
        Value::string(String::new()),
        ComparisonOperator::NEQ,
    ));
    check_request(Request::new(Value::integer(1), ComparisonOperator::LT));
    check_request(Request::new(Value::float(bits(3.14)), ComparisonOperator::GT));
    check_request(Request::new(
        Value::string(String::from("test")),
        ComparisonOperator::LE,
    ));
}

#[test]
fn serialize_tuple() {
    check_values(Tuple(vec![
        Value::integer(1),
        Value::string(String::new()),
        Value::string(String::from("test")),
        Value::Int(None),
        Value::String(None),
    ]));

    check_requests(Tuple(vec![
        Request::new(Value::float(bits(3.14)), ComparisonOperator::GE),
        Request::new(Value::Float(None), ComparisonOperator::ANY),
        Request::new(Value::String(None), ComparisonOperator::ANY),
    ]))
}

#[test]
fn tuple_serialize_message() {
    check_message(Message {
        tuple: MessageType::Request(Tuple(vec![Request::new(
            Value::integer(420),
            ComparisonOperator::LE,
        )])),
        ip: localhost_v4(1999),
    });

    check_message(Message {
        tuple: MessageType::Value(Tuple::<Value>(vec![])),
        ip: localhost_v6(1999),
    });
}

#[test]
fn every_operator_round_trips() {
    for op in [
        ComparisonOperator::EQ,
        ComparisonOperator::NEQ,
        ComparisonOperator::GE,
        ComparisonOperator::GT,
        ComparisonOperator::LE,
        ComparisonOperator::LT,
        ComparisonOperator::ANY,
    ] {
        check_request(Request::new(Value::integer(-7), op));
    }
}

#[test]
fn value_wire_bytes() {
    assert_eq!(Value::integer(5).to_bytes(), vec![0xff, 0xff, 0xff, 0xff, 5, 0, 0, 0]);
    assert_eq!(Value::Int(None).to_bytes(), vec![0xfd, 0xff, 0xff, 0xff]);
    assert_eq!(Value::Float(None).to_bytes(), vec![0xfc, 0xff, 0xff, 0xff]);
    assert_eq!(Value::String(None).to_bytes(), vec![0xfb, 0xff, 0xff, 0xff]);
    assert_eq!(
        Value::string(String::from("ab")).to_bytes(),
        vec![2, 0, 0, 0, b'a', b'b']
    );
    let f = Value::float(bits(1.0)).to_bytes();
    assert_eq!(&f[..4], &[0xfe, 0xff, 0xff, 0xff]);
    assert_eq!(&f[4..], &1.0f64.to_le_bytes());
    assert_eq!(ComparisonOperator::ANY.to_bytes(), vec![6, 0, 0, 0]);
}

#[test]
fn decoding_stops_after_the_value() {
    let mut bytes = Value::string(String::from("héllo")).to_bytes();
    bytes.extend_from_slice(&[9, 9]);
    let mut rest: &[u8] = &bytes[..];
    assert_eq!(
        Value::from_bytes(&mut rest).unwrap(),
        Value::string(String::from("héllo"))
    );
    assert_eq!(rest, &[9, 9]);
}

#[test]
fn decoding_rejects_bad_input() {
    // unknown header
    let mut rest: &[u8] = &[0xf0, 0xff, 0xff, 0xff];
    assert!(Value::from_bytes(&mut rest).is_none());
    // truncated integer
    let mut rest: &[u8] = &[0xff, 0xff, 0xff, 0xff, 1];
    assert!(Value::from_bytes(&mut rest).is_none());
    // string longer than the input
    let mut rest: &[u8] = &[5, 0, 0, 0, b'a'];
    assert!(Value::from_bytes(&mut rest).is_none());
    // invalid UTF-8
    let mut rest: &[u8] = &[2, 0, 0, 0, 0xc3, 0x28];
    assert!(Value::from_bytes(&mut rest).is_none());
    // unknown operator code
    let mut rest: &[u8] = &[7, 0, 0, 0];
    assert!(ComparisonOperator::from_bytes(&mut rest).is_none());
    // a tuple whose count promises more elements than there are
    let mut rest: &[u8] = &[2, 0, 0, 0, 0, 0, 0, 0, 0xfd, 0xff, 0xff, 0xff];
    assert!(Tuple::<Value>::from_bytes(&mut rest).is_none());
}

#[test]
fn int_equality_request() {
    let r = Request::new(Value::integer(5), ComparisonOperator::EQ);
    assert!(r.satisfies(&Value::integer(5)));
    assert!(!r.satisfies(&Value::integer(6)));
}

#[test]
fn float_any_request() {
    let r = Request::new(Value::Float(None), ComparisonOperator::ANY);
    assert!(r.satisfies(&Value::float(bits(3.14))));
    assert!(!r.satisfies(&Value::integer(3)));
}

#[test]
fn string_less_than_request() {
    let r = Request::new(Value::string(String::from("abc")), ComparisonOperator::LT);
    assert!(r.satisfies(&Value::string(String::from("abd"))));
    assert!(!r.satisfies(&Value::string(String::from("abc"))));
    assert!(!r.satisfies(&Value::string(String::from("ab"))));
}

#[test]
fn tuple_arity_mismatch() {
    let pattern = Tuple(vec![Request::new(Value::Int(None), ComparisonOperator::ANY)]);
    assert!(pattern.satisfies(&Tuple(vec![Value::integer(1)])));
    assert!(!pattern.satisfies(&Tuple(vec![Value::integer(1), Value::integer(2)])));
    assert!(!pattern.satisfies(&Tuple(vec![])));
}

#[test]
fn float_comparisons_follow_ieee() {
    let ge = Request::new(Value::float(bits(-1.5)), ComparisonOperator::LE);
    assert!(ge.satisfies(&Value::float(bits(2.0))));
    assert!(!ge.satisfies(&Value::float(bits(-3.0))));
    let zero = Request::new(Value::float(bits(0.0)), ComparisonOperator::EQ);
    assert!(zero.satisfies(&Value::float(bits(-0.0))));
    for op in [
        ComparisonOperator::EQ,
        ComparisonOperator::NEQ,
        ComparisonOperator::LT,
        ComparisonOperator::GE,
    ] {
        let r = Request::new(Value::float(bits(f64::NAN)), op);
        assert!(!r.satisfies(&Value::float(bits(1.0))));
        let r = Request::new(Value::float(bits(1.0)), op);
        assert!(!r.satisfies(&Value::float(bits(f64::NAN))));
    }
    let any = Request::new(Value::Float(None), ComparisonOperator::ANY);
    assert!(any.satisfies(&Value::float(bits(f64::NAN))));
}

#[test]
fn int_orderings() {
    let v = Value::integer(10);
    assert!(Request::new(Value::integer(5), ComparisonOperator::LT).satisfies(&v));
    assert!(Request::new(Value::integer(10), ComparisonOperator::LE).satisfies(&v));
    assert!(Request::new(Value::integer(10), ComparisonOperator::GE).satisfies(&v));
    assert!(!Request::new(Value::integer(10), ComparisonOperator::GT).satisfies(&v));
    assert!(Request::new(Value::integer(11), ComparisonOperator::GT).satisfies(&v));
    assert!(Request::new(Value::integer(3), ComparisonOperator::NEQ).satisfies(&v));
    assert!(!Request::new(Value::Int(None), ComparisonOperator::EQ).satisfies(&v));
}
