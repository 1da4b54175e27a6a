use vstd::prelude::*;

use crate::codec::{tuple_encodable, tuple_encoding, Serializable};
use crate::tuple::{Request, RequestModel, Tuple, Value, ValueModel};
use crate::utils::{
    le_bytes, lemma_be_split, lemma_le_bytes_len, lemma_le_value_bound, pow256, push_be, push_le, read_be,
    read_le_u16, read_le_u8, u16_le, u64_le, u8_le,
};

verus! {

/// The tag of a message that carries a tuple of values.
pub const VALUE_ID: u8 = 0;

/// The tag of a message that carries a pattern.
pub const REQUEST_ID: u8 = 1;

/// An IP address: four octets or sixteen, read as one big-endian number.
#[derive(PartialEq, Eq, Structural, Clone, Copy, Debug)]
pub enum IpAddr {
    V4(u32),
    V6(u128),
}

/// The address of a node: an IP address and a port.
#[derive(PartialEq, Eq, Structural, Clone, Copy, Debug)]
pub struct NodeAddr {
    pub ip: IpAddr,
    pub port: u16,
}

impl View for NodeAddr {
    type V = NodeAddr;

    open spec fn view(&self) -> NodeAddr {
        *self
    }
}

/// What a message carries: a tuple of values or a pattern.
#[derive(Debug, PartialEq)]
pub enum MessageType {
    Value(Tuple<Value>),
    Request(Tuple<Request>),
}

/// The model of a [`MessageType`].
pub enum BodyModel {
    Values(Seq<ValueModel>),
    Requests(Seq<RequestModel>),
}

impl View for MessageType {
    type V = BodyModel;

    open spec fn view(&self) -> BodyModel {
        match self {
            MessageType::Value(t) => BodyModel::Values(t@),
            MessageType::Request(t) => BodyModel::Requests(t@),
        }
    }
}

/// A message on the ring: its body and the node that first sent it.
#[derive(Debug, PartialEq)]
pub struct Message {
    pub tuple: MessageType,
    pub ip: NodeAddr,
}

/// The model of a [`Message`].
pub struct MessageModel {
    pub body: BodyModel,
    pub origin: NodeAddr,
}

impl View for Message {
    type V = MessageModel;

    open spec fn view(&self) -> MessageModel {
        MessageModel { body: self.tuple@, origin: self.ip }
    }
}

/// The failures the node's operations report.
#[derive(Debug)]
pub enum LindaError {
    /// A shared lock was poisoned; the text describes it.
    MutexLockFailure(String),
    /// Reading or writing a stream failed; the text describes it.
    IoFailure(String),
    /// A frame did not hold a well-formed message.
    MessageParseFailure,
    /// The other side of a channel is gone; the message could not be handed over.
    ChannelSendFailure(Message),
    /// No local tuple matched the pattern.
    NoTuple,
    /// No matching tuple came back before the deadline.
    Timeout,
}

/// The encoding of a node address: the IP version, the octets, then the port.
pub open spec fn addr_encoding(a: NodeAddr) -> Seq<u8> {
    match a.ip {
        IpAddr::V4(x) => u8_le(4) + le_bytes(x as nat, 4).reverse() + u16_le(a.port),
        IpAddr::V6(x) => u8_le(6) + le_bytes(x as nat, 16).reverse() + u16_le(a.port),
    }
}

/// The three parts of an address's encoding, with what follows them.
proof fn lemma_addr_encoding_shape(a: NodeAddr, rest: Seq<u8>)
    ensures
        ({
            let (k, w, x): (u8, nat, nat) = match a.ip {
                IpAddr::V4(x) => (4, 4, x as nat),
                IpAddr::V6(x) => (6, 16, x as nat),
            };
            addr_encoding(a) + rest == u8_le(k) + (le_bytes(x, w).reverse() + (u16_le(a.port)
                + rest))
        }),
{
    let (k, w, x): (u8, nat, nat) = match a.ip {
        IpAddr::V4(x) => (4, 4, x as nat),
        IpAddr::V6(x) => (6, 16, x as nat),
    };
    assert(addr_encoding(a) + rest =~= u8_le(k) + (le_bytes(x, w).reverse() + (u16_le(a.port)
        + rest)));
}

impl Serializable for NodeAddr {
    open spec fn encodable(v: NodeAddr) -> bool {
        true
    }

    open spec fn encoding(v: NodeAddr) -> Seq<u8> {
        addr_encoding(v)
    }

    fn can_encode(&self) -> (r: bool) {
        true
    }

    fn to_bytes(&self) -> (r: Vec<u8>) {
        let mut out: Vec<u8> = Vec::new();
        match self.ip {
            IpAddr::V4(x) => {
                push_le(&mut out, 4, 1);
                push_be(&mut out, x as u128, 4);
            },
            IpAddr::V6(x) => {
                push_le(&mut out, 6, 1);
                push_be(&mut out, x, 16);
            },
        }
        push_le(&mut out, self.port as u128, 2);
        out
    }

    fn from_bytes(bytes: &mut &[u8]) -> (r: Option<NodeAddr>) {
        let ghost start = bytes@;
        let version = match read_le_u8(bytes) {
            Some(v) => v,
            None => {
                proof {
                    assert forall|v: NodeAddr, rest: Seq<u8>|
                        #![trigger addr_encoding(v) + rest]
                        !(start == addr_encoding(v) + rest) by {
                        lemma_addr_encoding_shape(v, rest);
                    }
                }
                return None;
            },
        };
        let ghost after_version = bytes@;
        let width: usize = if version == 4 {
            4
        } else if version == 6 {
            16
        } else {
            proof {
                assert forall|v: NodeAddr, rest: Seq<u8>|
                    #![trigger addr_encoding(v) + rest]
                    !(start == addr_encoding(v) + rest) by {
                    lemma_addr_encoding_shape(v, rest);
                }
            }
            return None;
        };
        let octets = read_be(bytes, width);
        let ghost after_ip = bytes@;
        let port = read_le_u16(bytes);
        let r = match (octets, port) {
            (Some(x), Some(p)) => {
                proof {
                    lemma_le_value_bound(after_version.take(width as int).reverse());
                    assert(pow256(4) == 0x1_0000_0000) by {
                        reveal_with_fuel(pow256, 5);
                    }
                }
                let ip = if width == 4 {
                    IpAddr::V4(x as u32)
                } else {
                    IpAddr::V6(x)
                };
                Some(NodeAddr { ip, port: p })
            },
            _ => None,
        };
        proof {
            assert(pow256(4) == 0x1_0000_0000 && pow256(16) == 0x1_0000_0000_0000_0000_0000_0000_0000_0000)
                by {
                reveal_with_fuel(pow256, 17);
            }
            assert forall|v: NodeAddr, rest: Seq<u8>|
                #![trigger addr_encoding(v) + rest]
                start == addr_encoding(v) + rest ==> r == Some(v) && bytes@ == rest by {
                if start == addr_encoding(v) + rest {
                    let (k, w, xv): (u8, nat, nat) = match v.ip {
                        IpAddr::V4(x) => (4, 4, x as nat),
                        IpAddr::V6(x) => (6, 16, x as nat),
                    };
                    lemma_addr_encoding_shape(v, rest);
                    let tail = le_bytes(xv, w).reverse() + (u16_le(v.port) + rest);
                    assert(after_version == tail);
                    lemma_le_bytes_len(xv, w);
                    lemma_be_split(after_version, w, xv, u16_le(v.port) + rest);
                    assert(after_ip == u16_le(v.port) + rest);
                }
            }
            if r is Some {
                let v = r->0;
                let w: nat = if version == 4 {
                    4
                } else {
                    16
                };
                let xv: nat = match v.ip {
                    IpAddr::V4(x) => x as nat,
                    IpAddr::V6(x) => x as nat,
                };
                lemma_be_split(after_version, w, xv, after_ip);
                assert(after_ip == u16_le(v.port) + bytes@);
                assert(start == u8_le(version) + after_version);
                lemma_addr_encoding_shape(v, bytes@);
            }
        }
        r
    }
}

/// Whether a message has an encoding.
pub open spec fn message_encodable(m: MessageModel) -> bool {
    match m.body {
        BodyModel::Values(t) => tuple_encodable::<Value>(t),
        BodyModel::Requests(t) => tuple_encodable::<Request>(t),
    }
}

/// The encoding of a message: the tag of its body, the body, then the origin.
pub open spec fn message_encoding(m: MessageModel) -> Seq<u8> {
    match m.body {
        BodyModel::Values(t) => u8_le(VALUE_ID) + tuple_encoding::<Value>(t) + addr_encoding(
            m.origin,
        ),
        BodyModel::Requests(t) => u8_le(REQUEST_ID) + tuple_encoding::<Request>(t) + addr_encoding(
            m.origin,
        ),
    }
}

/// The tag of a body.
pub open spec fn body_tag(b: BodyModel) -> u8 {
    match b {
        BodyModel::Values(_) => VALUE_ID,
        BodyModel::Requests(_) => REQUEST_ID,
    }
}

/// The encoding of a body, without its tag.
pub open spec fn body_encoding(b: BodyModel) -> Seq<u8> {
    match b {
        BodyModel::Values(t) => tuple_encoding::<Value>(t),
        BodyModel::Requests(t) => tuple_encoding::<Request>(t),
    }
}

proof fn lemma_message_encoding_shape(m: MessageModel, rest: Seq<u8>)
    ensures
        message_encoding(m) + rest == u8_le(body_tag(m.body)) + (body_encoding(m.body) + (
        addr_encoding(m.origin) + rest)),
{
    assert(message_encoding(m) + rest =~= u8_le(body_tag(m.body)) + (body_encoding(m.body) + (
    addr_encoding(m.origin) + rest)));
}

impl Serializable for Message {
    open spec fn encodable(v: MessageModel) -> bool {
        message_encodable(v)
    }

    open spec fn encoding(v: MessageModel) -> Seq<u8> {
        message_encoding(v)
    }

    fn can_encode(&self) -> (r: bool) {
        match &self.tuple {
            MessageType::Value(t) => t.can_encode(),
            MessageType::Request(t) => t.can_encode(),
        }
    }

    fn to_bytes(&self) -> (r: Vec<u8>) {
        let mut out: Vec<u8> = Vec::new();
        let mut body = match &self.tuple {
            MessageType::Value(t) => {
                push_le(&mut out, VALUE_ID as u128, 1);
                t.to_bytes()
            },
            MessageType::Request(t) => {
                push_le(&mut out, REQUEST_ID as u128, 1);
                t.to_bytes()
            },
        };
        out.append(&mut body);
        let mut origin = self.ip.to_bytes();
        out.append(&mut origin);
        out
    }

    fn from_bytes(bytes: &mut &[u8]) -> (r: Option<Message>) {
        let ghost start = bytes@;
        let tag = read_le_u8(bytes);
        let ghost after_tag = bytes@;
        let body = match tag {
            Some(VALUE_ID) => match Tuple::<Value>::from_bytes(bytes) {
                Some(t) => Some(MessageType::Value(t)),
                None => None,
            },
            Some(REQUEST_ID) => match Tuple::<Request>::from_bytes(bytes) {
                Some(t) => Some(MessageType::Request(t)),
                None => None,
            },
            _ => None,
        };
        let ghost after_body = bytes@;
        let body = match body {
            Some(b) => b,
            None => {
                proof {
                    assert forall|v: MessageModel, rest: Seq<u8>|
                        #![trigger message_encoding(v) + rest]
                        !(message_encodable(v) && start == message_encoding(v) + rest) by {
                        lemma_message_encoding_shape(v, rest);
                        let tail = addr_encoding(v.origin) + rest;
                        match v.body {
                            BodyModel::Values(t) => {
                                assert(Tuple::<Value>::encoding(t) == tuple_encoding::<Value>(t));
                                assert(Tuple::<Value>::encoding(t) + tail == body_encoding(v.body)
                                    + tail);
                            },
                            BodyModel::Requests(t) => {
                                assert(Tuple::<Request>::encoding(t) == tuple_encoding::<Request>(
                                    t,
                                ));
                                assert(Tuple::<Request>::encoding(t) + tail == body_encoding(
                                    v.body,
                                ) + tail);
                            },
                        }
                    }
                }
                return None;
            },
        };
        proof {
            assert(start == u8_le(body_tag(body@)) + after_tag);
            assert(after_tag == body_encoding(body@) + after_body);
            assert forall|v: MessageModel, rest: Seq<u8>|
                #![trigger message_encoding(v) + rest]
                message_encodable(v) && start == message_encoding(v) + rest implies body@ == v.body
                    && after_body == addr_encoding(v.origin) + rest by {
                lemma_message_encoding_shape(v, rest);
                let tail = addr_encoding(v.origin) + rest;
                match v.body {
                    BodyModel::Values(t) => {
                        assert(Tuple::<Value>::encoding(t) == tuple_encoding::<Value>(t));
                        assert(Tuple::<Value>::encoding(t) + tail == body_encoding(v.body) + tail);
                    },
                    BodyModel::Requests(t) => {
                        assert(Tuple::<Request>::encoding(t) == tuple_encoding::<Request>(t));
                        assert(Tuple::<Request>::encoding(t) + tail == body_encoding(v.body)
                            + tail);
                    },
                }
            }
        }
        let origin = NodeAddr::from_bytes(bytes);
        match origin {
            Some(a) => {
                let r = Message { tuple: body, ip: a };
                proof {
                    assert(after_body == NodeAddr::encoding(a) + bytes@);
                    lemma_message_encoding_shape(r@, bytes@);
                    assert forall|v: MessageModel, rest: Seq<u8>|
                        #![trigger message_encoding(v) + rest]
                        message_encodable(v) && start == message_encoding(v) + rest implies r@ == v
                            && bytes@ == rest by {
                        assert(NodeAddr::encoding(v.origin) + rest == addr_encoding(v.origin) + rest);
                    }
                }
                Some(r)
            },
            None => {
                proof {
                    assert forall|v: MessageModel, rest: Seq<u8>|
                        #![trigger message_encoding(v) + rest]
                        !(message_encodable(v) && start == message_encoding(v) + rest) by {
                        assert(NodeAddr::encoding(v.origin) + rest == addr_encoding(v.origin) + rest);
                    }
                }
                None
            },
        }
    }
}

impl Message {
    pub fn value(tuple: Tuple<Value>, ip: NodeAddr) -> (r: Message)
        ensures
            r@ == (MessageModel { body: BodyModel::Values(tuple@), origin: ip }),
    {
        Message { tuple: MessageType::Value(tuple), ip }
    }

    pub fn request(tuple: Tuple<Request>, ip: NodeAddr) -> (r: Message)
        ensures
            r@ == (MessageModel { body: BodyModel::Requests(tuple@), origin: ip }),
    {
        Message { tuple: MessageType::Request(tuple), ip }
    }

    /// A message with an empty tuple of values, which only carries an address.
    pub fn from_ip(ip: NodeAddr) -> (r: Message)
        ensures
            r@ == (MessageModel { body: BodyModel::Values(Seq::empty()), origin: ip }),
    {
        let r = Message { tuple: MessageType::Value(Tuple::new()), ip };
        assert(r@.body->Values_0 =~= Seq::<ValueModel>::empty());
        r
    }

    /// The frame that carries this message: the payload's length in eight
    /// bytes, little-endian, then the payload.
    pub fn to_frame(&self) -> (r: Vec<u8>)
        requires
            message_encodable(self@),
        ensures
            r@ == u64_le(message_encoding(self@).len()) + message_encoding(self@),
    {
        let mut payload = self.to_bytes();
        let mut out: Vec<u8> = Vec::new();
        push_le(&mut out, payload.len() as u128, 8);
        out.append(&mut payload);
        out
    }

    /// Reads a frame's payload, which must hold exactly one message.
    pub fn from_payload(payload: &[u8]) -> (r: Result<Message, LindaError>)
        ensures
            r is Ok ==> message_encodable(r->Ok_0@) && payload@ == message_encoding(r->Ok_0@),
            r is Err ==> r->Err_0 is MessageParseFailure && forall|m: MessageModel|
                !(message_encodable(m) && payload@ == #[trigger] message_encoding(m)),
    {
        let mut rest: &[u8] = payload;
        let decoded = Message::from_bytes(&mut rest);
        match decoded {
            Some(m) => {
                if rest.len() == 0 {
                    assert(payload@ == message_encoding(m@) + rest@);
                    assert(message_encoding(m@) + rest@ == message_encoding(m@));
                    Ok(m)
                } else {
                    proof {
                        assert forall|v: MessageModel|
                            !(message_encodable(v) && payload@ == #[trigger] message_encoding(v)) by {
                            assert(message_encoding(v) + Seq::<u8>::empty() == message_encoding(v));
                            assert(Message::encoding(v) == message_encoding(v));
                        }
                    }
                    Err(LindaError::MessageParseFailure)
                }
            },
            None => {
                proof {
                    assert forall|v: MessageModel|
                        !(message_encodable(v) && payload@ == #[trigger] message_encoding(v)) by {
                        assert(message_encoding(v) + Seq::<u8>::empty() == message_encoding(v));
                        assert(Message::encoding(v) == message_encoding(v));
                    }
                }
                Err(LindaError::MessageParseFailure)
            },
        }
    }
}

} // verus!
