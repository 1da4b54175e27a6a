use vstd::prelude::*;

use crate::message::{BodyModel, LindaError, Message, MessageModel, MessageType, NodeAddr};
use crate::tuple::{all_concrete, tuple_accepts, Request, RequestModel, Tuple, Value, ValueModel};

verus! {

/// The index of the first tuple of `s` that the pattern `r` accepts, or
/// `s.len()` where none does.
pub open spec fn first_match(r: Seq<RequestModel>, s: Seq<Seq<ValueModel>>) -> int
    decreases s.len(),
{
    if s.len() == 0 {
        0
    } else if tuple_accepts(r, s[0]) {
        0
    } else {
        1 + first_match(r, s.drop_first())
    }
}

proof fn lemma_first_match_bounds(r: Seq<RequestModel>, s: Seq<Seq<ValueModel>>)
    ensures
        0 <= first_match(r, s) <= s.len(),
        first_match(r, s) < s.len() ==> tuple_accepts(r, s[first_match(r, s)]),
        forall|j: int| 0 <= j < first_match(r, s) ==> !tuple_accepts(r, #[trigger] s[j]),
    decreases s.len(),
{
    if s.len() > 0 && !tuple_accepts(r, s[0]) {
        lemma_first_match_bounds(r, s.drop_first());
        assert forall|j: int| 0 <= j < first_match(r, s) implies !tuple_accepts(r, #[trigger] s[j]) by {
            if j > 0 {
                assert(s[j] == s.drop_first()[j - 1]);
            }
        }
    }
}

/// A tuple appended to a store is found there by any pattern that accepts it:
/// what `out` leaves at its origin, or `rd` and `rdp` put back, can be taken
/// by a later `inp`.
pub proof fn lemma_appended_is_found(s: Seq<Seq<ValueModel>>, t: Seq<ValueModel>, r: Seq<RequestModel>)
    requires
        tuple_accepts(r, t),
    ensures
        first_match(r, s.push(t)) < s.push(t).len(),
    decreases s.len(),
{
    if s.len() > 0 && !tuple_accepts(r, s[0]) {
        assert(s.push(t).drop_first() == s.drop_first().push(t));
        lemma_appended_is_found(s.drop_first(), t, r);
    }
}

/// Tuples are taken oldest first: where no stored tuple matches, a pattern that
/// accepts `a` takes `a` before anything appended after it.
pub proof fn lemma_oldest_first(
    s: Seq<Seq<ValueModel>>,
    a: Seq<ValueModel>,
    b: Seq<ValueModel>,
    r: Seq<RequestModel>,
)
    requires
        forall|i: int| 0 <= i < s.len() ==> !tuple_accepts(r, #[trigger] s[i]),
        tuple_accepts(r, a),
    ensures
        first_match(r, s.push(a).push(b)) == s.len(),
    decreases s.len(),
{
    if s.len() == 0 {
        assert(s.push(a).push(b)[0] == a);
    } else {
        let u = s.push(a).push(b);
        assert(u[0] == s[0]);
        assert(u.drop_first() == s.drop_first().push(a).push(b));
        assert forall|i: int| 0 <= i < s.drop_first().len() implies !tuple_accepts(
            r,
            #[trigger] s.drop_first()[i],
        ) by {
            assert(s.drop_first()[i] == s[i + 1]);
        }
        lemma_oldest_first(s.drop_first(), a, b, r);
    }
}

/// Whether every tuple of a store carries all its payloads.
pub open spec fn store_wf(s: Seq<Seq<ValueModel>>) -> bool {
    forall|i: int| 0 <= i < s.len() ==> all_concrete(#[trigger] s[i])
}

/// A node's own tuples, oldest first.
pub struct LocalStore {
    tuples: Vec<Tuple<Value>>,
}

impl View for LocalStore {
    type V = Seq<Seq<ValueModel>>;

    closed spec fn view(&self) -> Seq<Seq<ValueModel>> {
        crate::codec::views(self.tuples@)
    }
}

impl LocalStore {
    /// Every stored tuple is concrete.
    #[verifier::type_invariant]
    spec fn inv(self) -> bool {
        store_wf(crate::codec::views(self.tuples@))
    }

    pub fn new() -> (r: LocalStore)
        ensures
            r@ == Seq::<Seq<ValueModel>>::empty(),
    {
        let r = LocalStore { tuples: Vec::new() };
        assert(r@ =~= Seq::<Seq<ValueModel>>::empty());
        r
    }

    pub fn len(&self) -> (r: usize)
        ensures
            r == self@.len(),
    {
        self.tuples.len()
    }

    /// Appends a tuple after all the others.
    pub fn add(&mut self, t: Tuple<Value>)
        requires
            all_concrete(t@),
        ensures
            final(self)@ == old(self)@.push(t@),
    {
        proof {
            use_type_invariant(&*self);
        }
        let ghost before = self@;
        let mut tuples: Vec<Tuple<Value>> = Vec::new();
        std::mem::swap(&mut tuples, &mut self.tuples);
        tuples.push(t);
        assert(crate::codec::views(tuples@) =~= before.push(t@));
        self.tuples = tuples;
    }

    /// Takes out the oldest tuple that `request` accepts, if any.
    pub fn find_and_remove(&mut self, request: &Tuple<Request>) -> (r: Option<Tuple<Value>>)
        ensures
            r matches Some(t) ==> all_concrete(t@),
            first_match(request@, old(self)@) < old(self)@.len() ==> r is Some && r->0@ == old(
                self,
            )@[first_match(request@, old(self)@)] && final(self)@ == old(self)@.remove(
                first_match(request@, old(self)@),
            ),
            first_match(request@, old(self)@) == old(self)@.len() ==> r is None && final(self)@
                == old(self)@,
    {
        proof {
            use_type_invariant(&*self);
        }
        let ghost s = self@;
        proof {
            lemma_first_match_bounds(request@, s);
        }
        let mut i: usize = 0;
        while i < self.tuples.len()
            invariant
                s == self@,
                s == old(self)@,
                store_wf(s),
                s.len() == self.tuples@.len(),
                0 <= i <= s.len(),
                i <= first_match(request@, s),
                0 <= first_match(request@, s) <= s.len(),
                first_match(request@, s) < s.len() ==> tuple_accepts(
                    request@,
                    s[first_match(request@, s)],
                ),
                forall|j: int| 0 <= j < first_match(request@, s) ==> !tuple_accepts(request@, #[trigger] s[j]),
            decreases s.len() - i,
        {
            assert(s[i as int] == self.tuples@[i as int]@);
            if request.satisfies(&self.tuples[i]) {
                assert(i == first_match(request@, s));
                let mut tuples: Vec<Tuple<Value>> = Vec::new();
                std::mem::swap(&mut tuples, &mut self.tuples);
                let t = tuples.remove(i);
                assert(crate::codec::views(tuples@) =~= s.remove(i as int));
                self.tuples = tuples;
                assert forall|k: int| 0 <= k < self@.len() implies all_concrete(#[trigger] self@[k]) by {
                    if k < i {
                        assert(self@[k] == s[k]);
                    } else {
                        assert(self@[k] == s[k + 1]);
                    }
                }
                return Some(t);
            }
            i = i + 1;
        }
        None
    }

    /// The tuple at `i`, oldest first.
    pub fn get(&self, i: usize) -> (r: &Tuple<Value>)
        requires
            i < self@.len(),
        ensures
            r@ == self@[i as int],
    {
        &self.tuples[i]
    }
}

/// `inp`: takes out the oldest local tuple that `request` accepts, or fails
/// with `NoTuple`.
pub fn inp(store: &mut LocalStore, request: &Tuple<Request>) -> (r: Result<Tuple<Value>, LindaError>)
    ensures
        first_match(request@, old(store)@) < old(store)@.len() ==> r is Ok && r->Ok_0@ == old(
            store,
        )@[first_match(request@, old(store)@)] && final(store)@ == old(store)@.remove(
            first_match(request@, old(store)@),
        ),
        first_match(request@, old(store)@) == old(store)@.len() ==> r is Err && r->Err_0 is NoTuple
            && final(store)@ == old(store)@,
{
    match store.find_and_remove(request) {
        Some(t) => Ok(t),
        None => Err(LindaError::NoTuple),
    }
}

/// `rdp`: like [`inp`], but the tuple found goes back into the store, as its
/// newest tuple, before it is returned.
pub fn rdp(store: &mut LocalStore, request: &Tuple<Request>) -> (r: Result<Tuple<Value>, LindaError>)
    ensures
        first_match(request@, old(store)@) < old(store)@.len() ==> r is Ok && r->Ok_0@ == old(
            store,
        )@[first_match(request@, old(store)@)] && final(store)@ == old(store)@.remove(
            first_match(request@, old(store)@),
        ).push(r->Ok_0@),
        first_match(request@, old(store)@) == old(store)@.len() ==> r is Err && r->Err_0 is NoTuple
            && final(store)@ == old(store)@,
{
    let ghost s = store@;
    proof {
        lemma_first_match_bounds(request@, s);
    }
    match store.find_and_remove(request) {
        Some(t) => {
            let copy = t.clone();
            store.add(copy);
            Ok(t)
        },
        None => Err(LindaError::NoTuple),
    }
}

/// The first step of a blocking `in` or `rd`.
pub enum Blocking {
    /// A local tuple matched: the operation is done.
    Done(Tuple<Value>),
    /// No local tuple matched: this request message goes onto the ring, and
    /// its pattern becomes the node's pending request.
    Issue(Message),
}

/// Starts a blocking `in` or `rd` at the node `me`: takes the oldest local
/// match if there is one, and otherwise issues the pattern as a request
/// message from `me`.
pub fn start_blocking(store: &mut LocalStore, request: Tuple<Request>, me: NodeAddr) -> (r: Blocking)
    ensures
        first_match(request@, old(store)@) < old(store)@.len() ==> r is Done && r->Done_0@ == old(
            store,
        )@[first_match(request@, old(store)@)] && final(store)@ == old(store)@.remove(
            first_match(request@, old(store)@),
        ),
        first_match(request@, old(store)@) == old(store)@.len() ==> r is Issue && r->Issue_0@ == (
        MessageModel { body: BodyModel::Requests(request@), origin: me }) && final(store)@ == old(
            store,
        )@,
{
    match store.find_and_remove(&request) {
        Some(t) => Blocking::Done(t),
        None => Blocking::Issue(Message::request(request, me)),
    }
}

/// Ends a blocking `in` (`keep` false) or `rd` (`keep` true) with what came
/// back before the deadline, if anything: `Timeout` when nothing did; for `rd`
/// the tuple goes back into the store as its newest tuple.
pub fn finish_blocking(store: &mut LocalStore, received: Option<Tuple<Value>>, keep: bool) -> (r: Result<
    Tuple<Value>,
    LindaError,
>)
    requires
        received matches Some(t) ==> all_concrete(t@),
    ensures
        received is None ==> r is Err && r->Err_0 is Timeout && final(store)@ == old(store)@,
        received is Some ==> r is Ok && r->Ok_0@ == received->0@,
        received is Some && keep ==> final(store)@ == old(store)@.push(received->0@),
        received is Some && !keep ==> final(store)@ == old(store)@,
{
    match received {
        Some(t) => {
            if keep {
                let copy = t.clone();
                store.add(copy);
            }
            Ok(t)
        },
        None => Err(LindaError::Timeout),
    }
}

/// What the worker does with a message, besides what it changes in the store.
pub enum Action {
    /// Hand this tuple to the waiting foreground.
    Deliver(Tuple<Value>),
    /// Send this message to the next node.
    Send(Message),
    /// Nothing to send: the message was stored or dropped.
    Nothing,
}

/// The worker of a node: its address and its pending request, if any.
pub struct Worker {
    pub addr: NodeAddr,
    pub pending: Option<Tuple<Request>>,
}

/// Whether `p`, if present, accepts the tuple `t`.
pub open spec fn pending_accepts(p: Option<Seq<RequestModel>>, t: Seq<ValueModel>) -> bool {
    match p {
        Some(r) => tuple_accepts(r, t),
        None => false,
    }
}

impl Worker {
    pub fn new(addr: NodeAddr) -> (r: Worker)
        ensures
            r.addr == addr,
            r.pending is None,
    {
        Worker { addr, pending: None }
    }

    /// The model of the pending request.
    pub open spec fn pending_model(&self) -> Option<Seq<RequestModel>> {
        match self.pending {
            Some(p) => Some(p@),
            None => None,
        }
    }

    /// Makes `request` the pending request; an older one is dropped.
    pub fn set_pending(&mut self, request: Tuple<Request>)
        ensures
            final(self).addr == old(self).addr,
            final(self).pending_model() == Some(request@),
    {
        self.pending = Some(request);
    }

    /// Handles one message from the previous node.
    ///
    /// A tuple of values that the pending request accepts is delivered, and the
    /// request is cleared; otherwise one that has come back to its origin is
    /// stored here, and any other is passed on. One with a type-only element is
    /// dropped. A request that has come back to its origin is dropped; any other
    /// takes out the oldest local tuple it accepts and sends it on toward the
    /// requester, or is passed on where none matches.
    pub fn route(&mut self, store: &mut LocalStore, msg: Message) -> (act: Action)
        ensures
            final(self).addr == old(self).addr,
            ({
                let m = msg@;
                let s = old(store)@;
                let me = old(self).addr;
                let p = old(self).pending_model();
                match m.body {
                    BodyModel::Values(t) => if !all_concrete(t) {
                        act is Nothing && final(store)@ == s && final(self).pending_model() == p
                    } else if pending_accepts(p, t) {
                        act is Deliver && act->Deliver_0@ == t && final(store)@ == s
                            && final(self).pending_model() is None
                    } else if m.origin == me {
                        act is Nothing && final(store)@ == s.push(t) && final(self).pending_model()
                            == p
                    } else {
                        act is Send && act->Send_0@ == m && final(store)@ == s
                            && final(self).pending_model() == p
                    },
                    BodyModel::Requests(r) => final(self).pending_model() == p && if m.origin
                        == me {
                        act is Nothing && final(store)@ == s
                    } else if first_match(r, s) < s.len() {
                        act is Send && act->Send_0@ == (MessageModel {
                            body: BodyModel::Values(s[first_match(r, s)]),
                            origin: m.origin,
                        }) && final(store)@ == s.remove(first_match(r, s))
                    } else {
                        act is Send && act->Send_0@ == m && final(store)@ == s
                    },
                }
            }),
    {
        let origin = msg.ip;
        match msg.tuple {
            MessageType::Value(t) => {
                if !t.is_concrete() {
                    return Action::Nothing;
                }
                let accepted = match &self.pending {
                    Some(p) => p.satisfies(&t),
                    None => false,
                };
                if accepted {
                    self.pending = None;
                    Action::Deliver(t)
                } else if origin == self.addr {
                    store.add(t);
                    Action::Nothing
                } else {
                    Action::Send(Message::value(t, origin))
                }
            },
            MessageType::Request(r) => {
                if origin == self.addr {
                    return Action::Nothing;
                }
                proof {
                    lemma_first_match_bounds(r@, store@);
                }
                match store.find_and_remove(&r) {
                    Some(t) => Action::Send(Message::value(t, origin)),
                    None => Action::Send(Message::request(r, origin)),
                }
            },
        }
    }
}

} // verus!
