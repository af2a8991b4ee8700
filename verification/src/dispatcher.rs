//! Delivery of messages to the connections that the router knows.

use std::collections::HashMap;
use vstd::prelude::*;

verus! {

broadcast use vstd::std_specs::hash::group_hash_axioms;

/// What can go wrong while routing a message.
#[derive(Debug)]
pub enum RouterError {
    /// A connection with this address is registered already.
    SenderAlreadyRegistered,
    /// No connection with this address is registered.
    SenderNotRegistered,
    /// The server of a registered service has no record of its services.
    AddressNotFound,
    /// A pending call's service has no record of its calls.
    ServiceNotFound,
    /// A pending call's caller has no record of its calls.
    ClientNotFound,
    /// A message that only the router sends was received.
    UnexpectedMessage(crate::gsb::GsbMessage),
}

impl RouterError {
    /// The text by which the error is reported.
    pub fn describe(&self) -> (s: String)
        ensures
            s@ == self.description(),
    {
        match self {
            RouterError::SenderAlreadyRegistered => String::from_str("Sender already registered"),
            RouterError::SenderNotRegistered => String::from_str("Sender not registered"),
            RouterError::AddressNotFound => String::from_str("Address not found"),
            RouterError::ServiceNotFound => String::from_str("Service not found"),
            RouterError::ClientNotFound => String::from_str("Client not found"),
            RouterError::UnexpectedMessage(_) => String::from_str("Unexpected message received"),
        }
    }

    pub open spec fn description(&self) -> Seq<char> {
        match self {
            RouterError::SenderAlreadyRegistered => "Sender already registered"@,
            RouterError::SenderNotRegistered => "Sender not registered"@,
            RouterError::AddressNotFound => "Address not found"@,
            RouterError::ServiceNotFound => "Service not found"@,
            RouterError::ClientNotFound => "Client not found"@,
            RouterError::UnexpectedMessage(_) => "Unexpected message received"@,
        }
    }
}

/// The senders of the open connections, by the connection's address.
pub struct MessageDispatcher<S> {
    senders: HashMap<u64, S>,
}

impl<S> View for MessageDispatcher<S> {
    type V = Map<u64, S>;

    closed spec fn view(&self) -> Map<u64, S> {
        self.senders@
    }
}

impl<S> MessageDispatcher<S> {
    pub fn new() -> (d: Self)
        ensures
            d@ == Map::<u64, S>::empty(),
    {
        MessageDispatcher { senders: HashMap::new() }
    }

    /// Records the sender of a new connection; a second one for the same
    /// address is refused.
    pub fn register(&mut self, addr: u64, sender: S) -> (res: Result<(), RouterError>)
        ensures
            old(self)@.contains_key(addr) ==> (res matches Err(RouterError::SenderAlreadyRegistered)
                && final(self)@ == old(self)@),
            !old(self)@.contains_key(addr) ==> res is Ok && final(self)@ == old(self)@.insert(addr, sender),
    {
        if self.senders.contains_key(&addr) {
            Err(RouterError::SenderAlreadyRegistered)
        } else {
            self.senders.insert(addr, sender);
            Ok(())
        }
    }

    /// Forgets the sender of a closed connection.
    pub fn unregister(&mut self, addr: u64) -> (res: Result<(), RouterError>)
        ensures
            final(self)@ == old(self)@.remove(addr),
            old(self)@.contains_key(addr) ==> res is Ok,
            !old(self)@.contains_key(addr) ==> res matches Err(RouterError::SenderNotRegistered),
    {
        match self.senders.remove(&addr) {
            None => Err(RouterError::SenderNotRegistered),
            Some(_) => Ok(()),
        }
    }

    /// The sender through which a message for `addr` goes out, handed back
    /// with the message; refused where no connection has that address.
    pub fn send_message<'a, T>(&'a self, addr: u64, msg: T) -> (res: Result<(&'a S, T), RouterError>)
        ensures
            self@.contains_key(addr) ==> (res matches Ok((s, m)) && *s == self@[addr] && m == msg),
            !self@.contains_key(addr) ==> res matches Err(RouterError::SenderNotRegistered),
    {
        match self.senders.get(&addr) {
            None => Err(RouterError::SenderNotRegistered),
            Some(sender) => Ok((sender, msg)),
        }
    }

    /// Whether a connection with this address is open.
    pub fn is_registered(&self, addr: u64) -> (res: bool)
        ensures
            res == self@.contains_key(addr),
    {
        self.senders.contains_key(&addr)
    }
}

} // verus!
