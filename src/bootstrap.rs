use vstd::prelude::*;

use crate::message::{BodyModel, Message, MessageType, NodeAddr};
use crate::tuple::{Value, ValueModel};

verus! {

/// The port at which the bootstrap server listens.
pub const SERVER_PORT: u16 = 1999;

/// The listening port that a joining node announces: the message must carry
/// a tuple of values made of one integer that is a port number.
pub open spec fn announced_port(m: BodyModel) -> Option<u16> {
    match m {
        BodyModel::Values(t) => if t.len() == 1 {
            match t[0] {
                ValueModel::Int(Some(p)) => if 0 <= p <= u16::MAX {
                    Some(p as u16)
                } else {
                    None
                },
                _ => None,
            }
        } else {
            None
        },
        BodyModel::Requests(_) => None,
    }
}

/// Reads the listening port out of a joining node's first message.
pub fn port_of(msg: &Message) -> (r: Option<u16>)
    ensures
        r == announced_port(msg@.body),
{
    match &msg.tuple {
        MessageType::Value(t) => {
            if t.0.len() != 1 {
                return None;
            }
            assert(t@[0] == t.0@[0]@);
            match &t.0[0] {
                Value::Int(Some(p)) => {
                    if 0 <= *p && *p <= u16::MAX as i32 {
                        Some(*p as u16)
                    } else {
                        None
                    }
                },
                _ => None,
            }
        },
        MessageType::Request(_) => None,
    }
}

/// For each admitted node, in the order of admission, the node after it on the
/// ring: the next one, and the first after the last.
pub fn ring_successors(clients: &Vec<NodeAddr>) -> (r: Vec<NodeAddr>)
    ensures
        r@.len() == clients@.len(),
        forall|i: int|
            0 <= i < clients@.len() ==> #[trigger] r@[i] == clients@[(i + 1) % (clients@.len() as int)],
{
    let n = clients.len();
    let mut out: Vec<NodeAddr> = Vec::new();
    let mut i: usize = 0;
    while i < n
        invariant
            n == clients@.len(),
            0 <= i <= n,
            out@.len() == i,
            forall|j: int| 0 <= j < i ==> #[trigger] out@[j] == clients@[(j + 1) % (n as int)],
        decreases n - i,
    {
        let next = if i + 1 < n {
            i + 1
        } else {
            0
        };
        assert(next as int == (i + 1) % (n as int)) by (nonlinear_arith)
            requires
                i < n,
                next == (if i + 1 < n {
                    i + 1
                } else {
                    0
                }),
        ;
        out.push(clients[next]);
        i = i + 1;
    }
    out
}

} // verus!
