use linda::bootstrap::{port_of, ring_successors};
use linda::codec::Serializable;
use linda::message::{IpAddr, LindaError, Message, MessageType, NodeAddr};
use linda::tuple::{ComparisonOperator, Request, Tuple, Value};
use linda::utils::read_le_usize;

fn check_message(message: Message) {
    let bytes = message.to_bytes();
    let mut rest: &[u8] = &bytes[..];
    assert_eq!(message, Message::from_bytes(&mut rest).unwrap());
    assert!(rest.is_empty());
}

#[test]
fn message_serialize_message() {
    let ip = NodeAddr { ip: IpAddr::V4(0x7f00_0001), port: 0 };

    let mut tuple = Tuple::new();
    tuple.push(Request::new(Value::integer(420), ComparisonOperator::LE));
    check_message(Message { tuple: MessageType::Request(tuple), ip });

    let mut tuple = Tuple::new();
    tuple.push(Value::integer(69));
    tuple.push(Value::String(None));
    check_message(Message { tuple: MessageType::Value(tuple), ip });

    check_message(Message::from_ip(NodeAddr { ip: IpAddr::V6(1), port: 0 }));
}

#[test]
fn address_wire_bytes() {
    let v4 = NodeAddr { ip: IpAddr::V4(0x7f00_0001), port: 1999 };
    assert_eq!(v4.to_bytes(), vec![4, 127, 0, 0, 1, 0xcf, 0x07]);
    let v6 = NodeAddr { ip: IpAddr::V6(1), port: 2 };
    let mut expected = vec![6];
    expected.extend_from_slice(&[0; 15]);
    expected.extend_from_slice(&[1, 2, 0]);
    assert_eq!(v6.to_bytes(), expected);
    let mut rest: &[u8] = &[5, 1, 2, 3, 4, 0, 0];
    assert!(NodeAddr::from_bytes(&mut rest).is_none());
}

#[test]
fn frame_round_trip() {
    let msg = Message::request(
        Tuple(vec![
            Request::new(Value::Float(None), ComparisonOperator::ANY),
            Request::new(Value::string(String::from("hello")), ComparisonOperator::EQ),
            Request::new(Value::integer(36), ComparisonOperator::GE),
        ]),
        NodeAddr { ip: IpAddr::V6(1), port: 0 },
    );
    assert!(msg.can_encode());
    let frame = msg.to_frame();
    let mut header: &[u8] = &frame[..8];
    let size = read_le_usize(&mut header).unwrap();
    assert_eq!(size, frame.len() - 8);
    assert_eq!(size, 61);
    let back = Message::from_payload(&frame[8..]).unwrap();
    assert_eq!(back, msg);
}

#[test]
fn payload_must_hold_exactly_one_message() {
    let msg = Message::value(Tuple(vec![Value::integer(1)]), NodeAddr { ip: IpAddr::V4(1), port: 1 });
    let mut bytes = msg.to_bytes();
    bytes.push(0);
    assert!(matches!(
        Message::from_payload(&bytes),
        Err(LindaError::MessageParseFailure)
    ));
    assert!(matches!(
        Message::from_payload(&[2, 0, 0]),
        Err(LindaError::MessageParseFailure)
    ));
}

#[test]
fn read_le_helpers() {
    let mut input: &[u8] = &[1, 2, 3, 4, 5, 6, 7, 8, 9];
    assert_eq!(read_le_usize(&mut input), Some(0x0807_0605_0403_0201));
    assert_eq!(input, &[9]);
    let mut input: &[u8] = &[0xfe, 0xff, 0xff, 0xff, 7];
    assert_eq!(linda::utils::read_le_i32(&mut input), Some(-2));
    assert_eq!(linda::utils::read_le_u8(&mut input), Some(7));
    assert_eq!(linda::utils::read_le_u8(&mut input), None);
    let mut input: &[u8] = &[0xcf, 0x07];
    assert_eq!(linda::utils::read_le_u16(&mut input), Some(1999));
    let mut input: &[u8] = &[1];
    assert_eq!(linda::utils::read_le_u16(&mut input), None);
    assert_eq!(input, &[1]);
}

#[test]
fn bootstrap_topology() {
    let a = NodeAddr { ip: IpAddr::V4(0x7f00_0001), port: 1000 };
    let b = NodeAddr { ip: IpAddr::V4(0x7f00_0001), port: 2000 };
    let c = NodeAddr { ip: IpAddr::V4(0x7f00_0001), port: 3000 };
    let next = ring_successors(&vec![a, b, c]);
    assert_eq!(next, vec![b, c, a]);
    assert_eq!(ring_successors(&vec![a]), vec![a]);
    assert!(ring_successors(&vec![]).is_empty());
}

#[test]
fn announced_port() {
    let server = NodeAddr { ip: IpAddr::V4(0x7f00_0001), port: 1999 };
    let ok = Message::value(Tuple(vec![Value::integer(4242)]), server);
    assert_eq!(port_of(&ok), Some(4242));
    let too_big = Message::value(Tuple(vec![Value::integer(70000)]), server);
    assert_eq!(port_of(&too_big), None);
    let wrong = Message::value(Tuple(vec![Value::string(String::from("1"))]), server);
    assert_eq!(port_of(&wrong), None);
    assert_eq!(port_of(&Message::from_ip(server)), None);
}
