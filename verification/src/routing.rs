//! Which handler a message goes to.

use std::collections::HashMap;
use vstd::prelude::*;

use crate::protocol::message::{Message, MessageData};
use crate::wire;

verus! {

broadcast use vstd::std_specs::hash::group_hash_axioms;

/// Handlers by message id, with one for everything else.
#[derive(Debug, Clone)]
#[verifier::reject_recursive_types(H)]
pub struct RouteTable<H> {
    routes: HashMap<u32, H>,
    default: H,
}

/// What a table of routes holds.
#[verifier::reject_recursive_types(H)]
#[verifier::ext_equal]
pub struct Routes<H> {
    pub routes: Map<u32, H>,
    pub default: H,
}

impl<H> View for RouteTable<H> {
    type V = Routes<H>;

    closed spec fn view(&self) -> Routes<H> {
        Routes { routes: self.routes@, default: self.default }
    }
}

/// The handler of a message id.
pub open spec fn target_of<H>(r: Routes<H>, msg_id: u32) -> H {
    if r.routes.contains_key(msg_id) {
        r.routes[msg_id]
    } else {
        r.default
    }
}

impl<H> RouteTable<H> {
    /// A table in which everything goes to `default`.
    pub fn with_default_handler(default: H) -> (t: Self)
        ensures
            t@ == (Routes { routes: Map::<u32, H>::empty(), default }),
    {
        RouteTable { routes: HashMap::new(), default }
    }

    /// Sends messages with an id to a handler; one that was there is replaced.
    pub fn add_route(&mut self, msg_id: u32, handler: H)
        ensures
            final(self)@ == (Routes {
                routes: old(self)@.routes.insert(msg_id, handler),
                default: old(self)@.default,
            }),
    {
        self.routes.insert(msg_id, handler);
    }

    /// The handler of a message id.
    pub fn target(&self, msg_id: u32) -> (h: &H)
        ensures
            *h == target_of(self@, msg_id),
    {
        match self.routes.get(&msg_id) {
            Some(h) => h,
            None => &self.default,
        }
    }
}

/// An answer to a message: it carries the message's id.
pub fn reply(message: &Message, data: Vec<u8>) -> (m: Message)
    ensures
        m@ == (MessageData { id: message@.id, data: data@ }),
{
    Message::new(message.id(), data)
}

/// The handler for messages that no route is set for: it sends back what came.
#[derive(Debug, Clone, Copy)]
pub struct EchoHandler;

impl EchoHandler {
    /// The answer to a message: the same message.
    pub fn respond(&self, message: &Message) -> (m: Message)
        ensures
            m@ == message@,
    {
        let m = reply(message, wire::to_vec(message.data()));
        assert(m@ =~= message@);
        m
    }
}

/// A route holds until it is set anew, and setting one leaves the others as they are.
pub proof fn routes_are_independent<H>(r: Routes<H>, msg_id: u32, handler: H, other: u32)
    ensures
        ({
            let set = Routes { routes: r.routes.insert(msg_id, handler), default: r.default };
            &&& target_of(set, msg_id) == handler
            &&& other != msg_id ==> target_of(set, other) == target_of(r, other)
        }),
{
}

/// A message without a route goes to the default handler, one with a route to its own.
pub proof fn messages_without_a_route_go_to_the_default<H>(r: Routes<H>, msg_id: u32)
    ensures
        !r.routes.dom().contains(msg_id) ==> target_of(r, msg_id) == r.default,
        r.routes.dom().contains(msg_id) ==> target_of(r, msg_id) == r.routes[msg_id],
{
}

} // verus!
