//! The service-bus router: servers register services under IDs, clients
//! call them, and replies go back to the callers.

use std::collections::HashMap;
use vstd::prelude::*;
use vstd::string::StringSliceAdditionalSpecFns;

use crate::dispatcher::{MessageDispatcher, RouterError};
use crate::gsb::{
    CallReply, CallRequest, GsbMessage, RegisterReply, RegisterRequest, UnregisterReply, UnregisterRequest,
    CALL_REPLY_BAD_REQUEST, NOT_REGISTERED, REGISTERED_OK, REGISTER_BAD_REQUEST, REGISTER_CONFLICT,
    REPLY_TYPE_FULL, SERVICE_FAILURE, UNREGISTERED_OK,
};
use crate::str_collections::{StrMap, StrSet, has_prefix};

verus! {

broadcast use {vstd::std_specs::hash::group_hash_axioms, vstd::string::group_string_axioms};

/// The characters that a service ID may hold: ASCII letters and digits,
/// `/`, `_` and `-`.
pub open spec fn is_service_id_char(c: char) -> bool {
    ('a' <= c && c <= 'z') || ('A' <= c && c <= 'Z') || ('0' <= c && c <= '9') || c == '/' || c == '_'
        || c == '-'
}

pub open spec fn valid_service_id(s: Seq<char>) -> bool {
    forall|i: int| 0 <= i < s.len() ==> is_service_id_char(#[trigger] s[i])
}

pub fn is_valid_service_id(service_id: &String) -> (res: bool)
    ensures
        res == valid_service_id(service_id@),
{
    let s = service_id.as_str();
    for c in it: s.chars()
        invariant
            it.seq() == service_id@,
            forall|j: int| 0 <= j < it.index() ==> is_service_id_char(#[trigger] service_id@[j]),
    {
        if !(('a' <= c && c <= 'z') || ('A' <= c && c <= 'Z') || ('0' <= c && c <= '9') || c == '/' || c
            == '_' || c == '-') {
            assert(!is_service_id_char(service_id@[it.index() as int]));
            return false;
        }
    }
    true
}

/// A call that was forwarded to a server and is waiting for its reply.
pub struct PendingCall {
    pub caller_addr: u64,
    pub service_id: String,
}

/// A pending call as the router's model holds it.
pub struct CallView {
    pub caller: u64,
    pub service: Seq<char>,
}

impl View for PendingCall {
    type V = CallView;

    open spec fn view(&self) -> CallView {
        CallView { caller: self.caller_addr, service: self.service_id@ }
    }
}

/// A message to send, and the connection to send it to.
#[derive(Debug)]
pub struct Outgoing {
    pub to: u64,
    pub msg: GsbMessage,
}

/// The router as its users see it: the open connections with their senders,
/// the server of each registered service ID, and the pending calls by
/// request ID.
pub struct RouterView<S> {
    pub senders: Map<u64, S>,
    pub registered: Map<Seq<char>, u64>,
    pub pending: Map<Seq<char>, CallView>,
}

impl<S> RouterView<S> {
    pub open spec fn connected(self) -> Set<u64> {
        self.senders.dom()
    }

    /// The service IDs that `addr` serves.
    pub open spec fn services_of(self, addr: u64) -> Set<Seq<char>> {
        Set::new(|s: Seq<char>| self.registered.contains_key(s) && self.registered[s] == addr)
    }

    /// The pending call `r` goes to a service that `addr` serves.
    pub open spec fn served_by(self, r: Seq<char>, addr: u64) -> bool {
        self.registered.contains_key(self.pending[r].service) && self.registered[self.pending[r].service]
            == addr
    }

    /// The pending calls that fail when `addr` disconnects: those to its
    /// services.
    pub open spec fn failed_by(self, addr: u64) -> Set<Seq<char>> {
        Set::new(|r: Seq<char>| self.pending.contains_key(r) && self.served_by(r, addr))
    }

    /// The pending calls that `addr` made or that fail when it disconnects.
    pub open spec fn dropped_by(self, addr: u64) -> Set<Seq<char>> {
        Set::new(
            |r: Seq<char>|
                self.pending.contains_key(r) && (self.served_by(r, addr) || self.pending[r].caller == addr),
        )
    }
}

/// `res` is the message that `msg_ok` describes, sent to `to`, where `to` is
/// open; where it is not, `res` is the error that says so.
pub open spec fn sent_to(
    res: Result<Outgoing, RouterError>,
    connected: Set<u64>,
    to: u64,
    msg_ok: spec_fn(GsbMessage) -> bool,
) -> bool {
    if connected.contains(to) {
        res matches Ok(o) && o.to == to && msg_ok(o.msg)
    } else {
        res matches Err(RouterError::SenderNotRegistered)
    }
}

/// The state `w` after `addr` disconnects from the state `v`: its sender is
/// gone, its services are unregistered, and the calls it made or that went
/// to its services are no longer pending.
pub open spec fn disconnect_done<S>(v: RouterView<S>, w: RouterView<S>, addr: u64) -> bool {
    &&& w.senders == v.senders.remove(addr)
    &&& w.registered == v.registered.remove_keys(v.services_of(addr))
    &&& w.pending == v.pending.remove_keys(v.dropped_by(addr))
}

/// `notices` tells, once each, the caller of every call that fails when
/// `addr` disconnects from the view `v` that the service failed; each
/// notice to a connection that is still open is sent.
pub open spec fn failure_notices<S>(notices: Seq<Result<Outgoing, RouterError>>, v: RouterView<S>, addr: u64) -> bool {
    exists|rs: Seq<Seq<char>>|
        {
            &&& rs.no_duplicates()
            &&& rs.to_set() == v.failed_by(addr)
            &&& rs.len() == notices.len()
            &&& forall|j: int|
                0 <= j < rs.len() ==> sent_to(
                    #[trigger] notices[j],
                    v.connected().remove(addr),
                    v.pending[rs[j]].caller,
                    |m| is_call_reply(m, rs[j], SERVICE_FAILURE, disconnected_text()),
                )
        }
}

/// The outcome of a new connection `addr` with `sender`, from `v` to `w`.
pub open spec fn connect_done<S>(v: RouterView<S>, w: RouterView<S>, addr: u64, sender: S, res: Result<(), RouterError>) -> bool {
    &&& w.registered == v.registered
    &&& w.pending == v.pending
    &&& if v.senders.contains_key(addr) {
        res matches Err(RouterError::SenderAlreadyRegistered) && w.senders == v.senders
    } else {
        res is Ok && w.senders == v.senders.insert(addr, sender)
    }
}

/// The outcome of a registration of `sid` by `addr`, from `v` to `w`.
pub open spec fn register_done<S>(
    v: RouterView<S>,
    w: RouterView<S>,
    addr: u64,
    sid: Seq<char>,
    res: Result<Outgoing, RouterError>,
) -> bool {
    &&& w.senders == v.senders
    &&& w.pending == v.pending
    &&& if !valid_service_id(sid) {
        &&& w.registered == v.registered
        &&& sent_to(res, v.connected(), addr, |m| is_register_reply(m, REGISTER_BAD_REQUEST, illegal_id_text()))
    } else if v.registered.contains_key(sid) {
        &&& w.registered == v.registered
        &&& sent_to(res, v.connected(), addr, |m| is_register_reply(m, REGISTER_CONFLICT, conflict_text()))
    } else {
        &&& w.registered == v.registered.insert(sid, addr)
        &&& sent_to(res, v.connected(), addr, |m| is_register_reply(m, REGISTERED_OK, registered_text()))
    }
}

/// The outcome of an unregistration of `sid` by `addr`, from `v` to `w`.
pub open spec fn unregister_done<S>(
    v: RouterView<S>,
    w: RouterView<S>,
    addr: u64,
    sid: Seq<char>,
    res: Result<Outgoing, RouterError>,
) -> bool {
    &&& w.senders == v.senders
    &&& w.pending == v.pending
    &&& if v.registered.contains_key(sid) && v.registered[sid] == addr {
        &&& w.registered == v.registered.remove(sid)
        &&& sent_to(res, v.connected(), addr, |m| is_unregister_reply(m, UNREGISTERED_OK))
    } else {
        &&& w.registered == v.registered
        &&& sent_to(res, v.connected(), addr, |m| is_unregister_reply(m, NOT_REGISTERED))
    }
}

/// The outcome of the call `msg` by `caller`, from `v` to `w`.
pub open spec fn call_done<S>(
    v: RouterView<S>,
    w: RouterView<S>,
    caller: u64,
    msg: CallRequest,
    res: Result<Outgoing, RouterError>,
) -> bool {
    let rid = msg.request_id@;
    let svc = msg.address@;
    &&& w.senders == v.senders
    &&& w.registered == v.registered
    &&& if v.pending.contains_key(rid) {
        &&& w.pending == v.pending
        &&& sent_to(res, v.connected(), caller, |m| is_call_reply(m, rid, CALL_REPLY_BAD_REQUEST, duplicate_call_text()))
    } else if !v.registered.contains_key(svc) {
        &&& w.pending == v.pending
        &&& sent_to(res, v.connected(), caller, |m| is_call_reply(m, rid, CALL_REPLY_BAD_REQUEST, no_service_text()))
    } else {
        &&& w.pending == v.pending.insert(rid, CallView { caller, service: svc })
        &&& sent_to(res, v.connected(), v.registered[svc], |m| m == GsbMessage::CallRequest(msg))
    }
}

/// The outcome of the reply `msg`, from `v` to `w`.
pub open spec fn reply_done<S>(
    v: RouterView<S>,
    w: RouterView<S>,
    msg: CallReply,
    res: Result<Option<Outgoing>, RouterError>,
) -> bool {
    let rid = msg.request_id@;
    &&& w.senders == v.senders
    &&& w.registered == v.registered
    &&& if !v.pending.contains_key(rid) {
        &&& w.pending == v.pending
        &&& res matches Ok(None)
    } else {
        let caller = v.pending[rid].caller;
        &&& w.pending == (if msg.reply_type == REPLY_TYPE_FULL {
            v.pending.remove(rid)
        } else {
            v.pending
        })
        &&& if v.connected().contains(caller) {
            res == Ok::<Option<Outgoing>, RouterError>(Some(Outgoing { to: caller, msg: GsbMessage::CallReply(msg) }))
        } else {
            res matches Err(RouterError::SenderNotRegistered)
        }
    }
}

/// `r` as the result of a handler that sends at most one message.
pub open spec fn some_out(r: Result<Outgoing, RouterError>) -> Result<Option<Outgoing>, RouterError> {
    match r {
        Ok(o) => Ok(Some(o)),
        Err(e) => Err(e),
    }
}

pub open spec fn is_register_reply(m: GsbMessage, code: i32, text: Seq<char>) -> bool {
    m matches GsbMessage::RegisterReply(r) && r.code == code && r.message@ == text
}

pub open spec fn is_unregister_reply(m: GsbMessage, code: i32) -> bool {
    m matches GsbMessage::UnregisterReply(r) && r.code == code
}

/// A full reply with `code` to the call `request_id`, carrying `data`.
pub open spec fn is_call_reply(m: GsbMessage, request_id: Seq<char>, code: i32, data: Seq<u8>) -> bool {
    m matches GsbMessage::CallReply(r) && r.request_id@ == request_id && r.code == code && r.reply_type
        == REPLY_TYPE_FULL && r.data@ == data
}

pub open spec fn illegal_id_text() -> Seq<char> {
    "Illegal service ID"@
}

pub open spec fn conflict_text() -> Seq<char> {
    "Service ID already registered"@
}

pub open spec fn registered_text() -> Seq<char> {
    "Service successfully registered"@
}

pub open spec fn duplicate_call_text() -> Seq<u8> {
    "CallRequest with this ID already exists".spec_bytes()
}

pub open spec fn no_service_text() -> Seq<u8> {
    "No service registered under given address".spec_bytes()
}

pub open spec fn disconnected_text() -> Seq<u8> {
    "Service disconnected".spec_bytes()
}

/// Each registered service ID is listed among its server's services, and
/// each listed service is registered to that server.
spec fn services_indexed(reg: Map<Seq<char>, u64>, rev: Map<u64, StrSet>) -> bool {
    &&& forall|s: Seq<char>| #[trigger]
        reg.contains_key(s) ==> rev.contains_key(reg[s]) && rev[reg[s]]@.contains(s)
    &&& forall|a: u64, s: Seq<char>|
        rev.contains_key(a) && #[trigger] rev[a]@.contains(s) ==> reg.contains_key(s) && reg[s] == a
}

/// Each pending call is listed among its caller's calls and its service's
/// calls, and each listed call is pending, with that caller and service.
spec fn calls_indexed(
    pend: Map<Seq<char>, PendingCall>,
    cc: Map<u64, StrSet>,
    ec: Map<Seq<char>, StrSet>,
) -> bool {
    &&& forall|r: Seq<char>| #[trigger]
        pend.contains_key(r) ==> {
            &&& cc.contains_key(pend[r].caller_addr)
            &&& cc[pend[r].caller_addr]@.contains(r)
            &&& ec.contains_key(pend[r].service_id@)
            &&& ec[pend[r].service_id@]@.contains(r)
        }
    &&& forall|c: u64, r: Seq<char>|
        cc.contains_key(c) && #[trigger] cc[c]@.contains(r) ==> pend.contains_key(r) && pend[r].caller_addr
            == c
    &&& forall|s: Seq<char>, r: Seq<char>|
        ec.contains_key(s) && #[trigger] ec[s]@.contains(r) ==> pend.contains_key(r) && pend[r].service_id@
            == s
}

/// Routes calls between the connections of a service bus. `S` is the
/// sender through which messages reach a connection.
pub struct Router<S> {
    dispatcher: MessageDispatcher<S>,
    registered_endpoints: StrMap<u64>,
    reversed_endpoints: HashMap<u64, StrSet>,
    pending_calls: StrMap<PendingCall>,
    client_calls: HashMap<u64, StrSet>,
    endpoint_calls: StrMap<StrSet>,
}

impl<S> View for Router<S> {
    type V = RouterView<S>;

    closed spec fn view(&self) -> RouterView<S> {
        RouterView {
            senders: self.dispatcher@,
            registered: self.registered_endpoints@,
            pending: self.pending_calls@.map_values(|pc: PendingCall| pc@),
        }
    }
}

impl<S> Router<S> {
    /// The indexes of services and calls agree with the registrations and
    /// the pending calls.
    pub closed spec fn wf(&self) -> bool {
        &&& self.registered_endpoints.wf()
        &&& self.pending_calls.wf()
        &&& self.endpoint_calls.wf()
        &&& services_indexed(self.registered_endpoints@, self.reversed_endpoints@)
        &&& forall|s: Seq<char>| #[trigger] self.registered_endpoints@.contains_key(s) ==> valid_service_id(s)
        &&& calls_indexed(self.pending_calls@, self.client_calls@, self.endpoint_calls@)
    }

    pub fn new() -> (r: Self)
        ensures
            r.wf(),
            r@.senders == Map::<u64, S>::empty(),
            r@.registered == Map::<Seq<char>, u64>::empty(),
            r@.pending == Map::<Seq<char>, CallView>::empty(),
    {
        let r = Router {
            dispatcher: MessageDispatcher::new(),
            registered_endpoints: StrMap::new(),
            reversed_endpoints: HashMap::new(),
            pending_calls: StrMap::new(),
            client_calls: HashMap::new(),
            endpoint_calls: StrMap::new(),
        };
        assert(r@.pending =~= Map::<Seq<char>, CallView>::empty());
        r
    }

    /// Every registered service ID is well formed: a registration with an
    /// ill-formed ID is refused, and nothing else adds one.
    pub proof fn lemma_registered_ids_valid(&self)
        requires
            self.wf(),
        ensures
            forall|s: Seq<char>| #[trigger] self@.registered.contains_key(s) ==> valid_service_id(s),
    {
    }

    /// Accepts a new connection, whose messages go out through `sender`.
    pub fn connect(&mut self, addr: u64, sender: S) -> (res: Result<(), RouterError>)
        requires
            old(self).wf(),
        ensures
            final(self).wf(),
            connect_done(old(self)@, final(self)@, addr, sender, res),
    {
        self.dispatcher.register(addr, sender)
    }

    /// Sends `msg` to the connection `addr`, if it is open.
    pub fn send_message(&self, addr: u64, msg: GsbMessage) -> (res: Result<Outgoing, RouterError>)
        ensures
            self@.connected().contains(addr) ==> res == Ok::<Outgoing, RouterError>(
                Outgoing { to: addr, msg },
            ),
            !self@.connected().contains(addr) ==> res matches Err(RouterError::SenderNotRegistered),
    {
        deliver(&self.dispatcher, addr, msg)
    }

    /// The sender of the open connection `addr`.
    pub fn sender(&self, addr: u64) -> (res: Option<&S>)
        ensures
            self@.senders.contains_key(addr) ==> res == Some(&self@.senders[addr]),
            !self@.senders.contains_key(addr) ==> res is None,
    {
        match self.dispatcher.send_message(addr, ()) {
            Ok((s, _)) => Some(s),
            Err(_) => None,
        }
    }

    /// A server asks to serve `msg.service_id`. The ID must be well formed
    /// and not served yet; the server is told the outcome.
    pub fn register_endpoint(&mut self, addr: u64, msg: RegisterRequest) -> (res: Result<
        Outgoing,
        RouterError,
    >)
        requires
            old(self).wf(),
        ensures
            final(self).wf(),
            register_done(old(self)@, final(self)@, addr, msg.service_id@, res),
    {
        let service_id = msg.service_id;
        let reply = if !is_valid_service_id(&service_id) {
            RegisterReply { code: REGISTER_BAD_REQUEST, message: String::from_str("Illegal service ID") }
        } else if self.registered_endpoints.contains_key(&service_id) {
            RegisterReply { code: REGISTER_CONFLICT, message: String::from_str("Service ID already registered") }
        } else {
            let ghost old_rev = self.reversed_endpoints@;
            self.registered_endpoints.insert(service_id.clone(), addr);
            let mut services = match self.reversed_endpoints.remove(&addr) {
                Some(set) => set,
                None => StrSet::new(),
            };
            services.insert(service_id);
            self.reversed_endpoints.insert(addr, services);
            proof {
                let sid = msg.service_id@;
                assert forall|a: u64, s: Seq<char>|
                    self.reversed_endpoints@.contains_key(a) && #[trigger] self.reversed_endpoints@[a]@.contains(s)
                    implies self.registered_endpoints@.contains_key(s) && self.registered_endpoints@[s] == a by {
                    if a != addr {
                        assert(old_rev[a] == self.reversed_endpoints@[a]);
                    } else if s != sid {
                        assert(old_rev.contains_key(a) && old_rev[a]@.contains(s));
                    }
                }
            }
            RegisterReply { code: REGISTERED_OK, message: String::from_str("Service successfully registered") }
        };
        self.send_message(addr, GsbMessage::RegisterReply(reply))
    }

    /// A server asks to stop serving `msg.service_id`. Only the server that
    /// registered the ID may; it is told the outcome.
    pub fn unregister_endpoint(&mut self, addr: u64, msg: UnregisterRequest) -> (res: Result<
        Outgoing,
        RouterError,
    >)
        requires
            old(self).wf(),
        ensures
            final(self).wf(),
            unregister_done(old(self)@, final(self)@, addr, msg.service_id@, res),
    {
        let service_id = msg.service_id;
        let owned = match self.registered_endpoints.get(&service_id) {
            Some(a) => *a == addr,
            None => false,
        };
        let code = if owned {
            let ghost old_rev = self.reversed_endpoints@;
            let ghost old_reg = self.registered_endpoints@;
            self.registered_endpoints.remove(&service_id);
            match self.reversed_endpoints.remove(&addr) {
                None => {
                    return Err(RouterError::AddressNotFound);
                },
                Some(mut services) => {
                    services.remove(&service_id);
                    self.reversed_endpoints.insert(addr, services);
                },
            }
            proof {
                let sid = service_id@;
                assert forall|s: Seq<char>| #[trigger] self.registered_endpoints@.contains_key(s)
                    implies self.reversed_endpoints@.contains_key(self.registered_endpoints@[s])
                        && self.reversed_endpoints@[self.registered_endpoints@[s]]@.contains(s) by {
                    assert(old_reg.contains_key(s));
                }
                assert forall|a: u64, s: Seq<char>|
                    self.reversed_endpoints@.contains_key(a) && #[trigger] self.reversed_endpoints@[a]@.contains(s)
                    implies self.registered_endpoints@.contains_key(s) && self.registered_endpoints@[s] == a by {
                    if a != addr {
                        assert(old_rev[a] == self.reversed_endpoints@[a]);
                        assert(old_reg.contains_key(s) && old_reg[s] == a);
                    } else {
                        assert(old_rev[a]@.contains(s));
                    }
                }
            }
            UNREGISTERED_OK
        } else {
            NOT_REGISTERED
        };
        self.send_message(addr, GsbMessage::UnregisterReply(UnregisterReply { code }))
    }

    /// A connection closes. Its sender is dropped, the services it served
    /// are unregistered, the callers of the calls to those services are told
    /// that the service failed, and the calls it made itself are dropped.
    pub fn disconnect(&mut self, addr: u64) -> (res: Result<Vec<Result<Outgoing, RouterError>>, RouterError>)
        requires
            old(self).wf(),
        ensures
            final(self).wf(),
            !old(self)@.connected().contains(addr) ==> {
                &&& res matches Err(RouterError::SenderNotRegistered)
                &&& final(self)@.senders == old(self)@.senders
                &&& final(self)@.registered == old(self)@.registered
                &&& final(self)@.pending == old(self)@.pending
            },
            old(self)@.connected().contains(addr) ==> {
                &&& disconnect_done(old(self)@, final(self)@, addr)
                &&& res matches Ok(notices) && failure_notices(notices@, old(self)@, addr)
            },
    {
        let ghost v = self@;
        let ghost old_reg = self.registered_endpoints@;
        let ghost old_rev = self.reversed_endpoints@;
        let ghost old_pend = self.pending_calls@;
        let ghost old_cc = self.client_calls@;
        let ghost old_ec = self.endpoint_calls@;
        match self.dispatcher.unregister(addr) {
            Err(e) => {
                return Err(e);
            },
            Ok(()) => {},
        }
        // The services that this connection served.
        let service_ids: Vec<String> = match self.reversed_endpoints.remove(&addr) {
            Some(services) => services.into_vec(),
            None => Vec::new(),
        };
        let ghost services = id_set(service_ids@);
        proof {
            assert(services =~= v.services_of(addr)) by {
                assert forall|s: Seq<char>| services.contains(s) implies v.services_of(addr).contains(s) by {
                    let k = choose|k: int| 0 <= k < service_ids@.len() && service_ids@[k]@ == s;
                    assert(old_rev[addr]@.contains(service_ids@[k]@));
                }
                assert forall|s: Seq<char>| v.services_of(addr).contains(s) implies services.contains(s) by {
                    assert(old_rev.contains_key(addr) && old_rev[addr]@.contains(s));
                    let k = choose|k: int| 0 <= k < service_ids@.len() && #[trigger] service_ids@[k]@ == s;
                    assert(has_prefix(service_ids@, service_ids@.len() as int, s));
                }
            }
        }
        remove_all(&mut self.registered_endpoints, &service_ids);
        // The calls pending at those services.
        let pending_call_ids = take_call_sets(&mut self.endpoint_calls, &service_ids);
        let ghost failed = id_set(pending_call_ids@);
        proof {
            assert(failed =~= v.failed_by(addr)) by {
                assert forall|r: Seq<char>| failed.contains(r) implies v.failed_by(addr).contains(r) by {
                    let s = choose|s: Seq<char>| services.contains(s) && old_ec.contains_key(s) && #[trigger] old_ec[s]@.contains(r);
                    assert(old_pend.contains_key(r) && old_pend[r].service_id@ == s);
                }
                assert forall|r: Seq<char>| v.failed_by(addr).contains(r) implies failed.contains(r) by {
                    let s = old_pend[r].service_id@;
                    assert(old_ec.contains_key(s) && old_ec[s]@.contains(r));
                    assert(services.contains(s));
                }
            }
        }
        proof {
            assert(failed =~= Set::new(|r: Seq<char>| old_pend.contains_key(r) && services.contains(old_pend[r].service_id@))) by {
                assert forall|r: Seq<char>| failed.contains(r) implies old_pend.contains_key(r) && services.contains(old_pend[r].service_id@) by {
                    let s = choose|s: Seq<char>| services.contains(s) && old_ec.contains_key(s) && #[trigger] old_ec[s]@.contains(r);
                    assert(old_pend.contains_key(r) && old_pend[r].service_id@ == s);
                }
                assert forall|r: Seq<char>| old_pend.contains_key(r) && services.contains(old_pend[r].service_id@) implies failed.contains(r) by {
                    let s = old_pend[r].service_id@;
                    assert(old_ec.contains_key(s) && old_ec[s]@.contains(r));
                }
            }
        }
        let pending = take_pending(&mut self.pending_calls, &pending_call_ids);
        proof {
            assert forall|j: int| 0 <= j < pending@.len() implies old_cc.contains_key(#[trigger] pending@[j].1.caller_addr) by {
                let r = pending@[j].0@;
                assert(old_pend.contains_key(r));
            }
        }
        let ghost pend_c = self.pending_calls@;
        // Tell their callers that the service failed.
        let notices = notify_callers(&mut self.client_calls, &self.dispatcher, &pending);
        let ghost cc_d = self.client_calls@;
        let ghost ec_b = self.endpoint_calls@;
        let ghost taken = pending@;
        proof {
            assert(taken_keys(taken, taken.len() as int) =~= failed);
            let rs = taken.map_values(|p: (String, PendingCall)| p.0@);
            assert(rs.to_set() =~= v.failed_by(addr)) by {
                assert forall|r: Seq<char>| rs.to_set().contains(r) implies v.failed_by(addr).contains(r) by {
                    let j = choose|j: int| 0 <= j < rs.len() && rs[j] == r;
                    assert(taken[j].0@ == r);
                    assert(taken_keys(taken, taken.len() as int).contains(r));
                }
                assert forall|r: Seq<char>| v.failed_by(addr).contains(r) implies rs.to_set().contains(r) by {
                    assert(taken_keys(taken, taken.len() as int).contains(r));
                    let j = choose|j: int| 0 <= j < taken.len() && taken[j].0@ == r;
                    assert(rs[j] == r);
                }
            }
            assert(rs.no_duplicates()) by {
                assert forall|a: int, b: int| 0 <= a < rs.len() && 0 <= b < rs.len() && a != b implies rs[a] != rs[b] by {
                    if a < b {
                        assert(taken[a].0@ != taken[b].0@);
                    } else {
                        assert(taken[b].0@ != taken[a].0@);
                    }
                }
            }
            assert forall|j: int| 0 <= j < rs.len() implies sent_to(
                #[trigger] notices@[j],
                v.connected().remove(addr),
                v.pending[rs[j]].caller,
                |m| is_call_reply(m, rs[j], SERVICE_FAILURE, disconnected_text()),
            ) by {
                assert(rs[j] == taken[j].0@);
                assert(v.pending[rs[j]] == old_pend[rs[j]]@);
                assert(self.dispatcher@.dom() =~= v.connected().remove(addr));
            }
            assert(failure_notices(notices@, v, addr));
        }
        proof {
            assert(ec_b.dom() =~= old_ec.dom().difference(services));
            assert(cc_d.dom().remove(addr) =~= old_cc.dom().remove(addr));
        }
        // Drop the calls that this connection made.
        match self.client_calls.remove(&addr) {
            Some(calls) => {
                let ids = calls.into_vec();
                proof {
                    assert forall|r: Seq<char>| #[trigger] id_set(ids@).contains(r) implies pend_c.contains_key(r)
                        && ec_b.contains_key(pend_c[r].service_id@) by {
                        let k = choose|k: int| 0 <= k < ids@.len() && ids@[k]@ == r;
                        assert(cc_d[addr]@.contains(ids@[k]@));
                        assert(old_cc[addr]@.contains(r) && !failed.contains(r));
                        assert(old_pend.contains_key(r));
                        let svc = old_pend[r].service_id@;
                        assert(old_ec.contains_key(svc) && old_ec[svc]@.contains(r));
                        assert(!services.contains(svc));
                    }
                    assert forall|s: Seq<char>, r: Seq<char>|
                        id_set(ids@).contains(r) && ec_b.contains_key(s) && #[trigger] ec_b[s]@.contains(r)
                        implies pend_c[r].service_id@ == s by {
                        assert(old_ec[s]@.contains(r));
                        assert(pend_c.contains_key(r));
                    }
                }
                drop_calls(&mut self.pending_calls, &mut self.endpoint_calls, &ids);
                proof {
                    assert(id_set(ids@) =~= old_cc[addr]@.difference(failed)) by {
                        assert forall|r: Seq<char>| id_set(ids@).contains(r) implies old_cc[addr]@.difference(failed).contains(r) by {
                            let k = choose|k: int| 0 <= k < ids@.len() && ids@[k]@ == r;
                            assert(cc_d[addr]@.contains(ids@[k]@));
                        }
                        assert forall|r: Seq<char>| old_cc[addr]@.difference(failed).contains(r) implies id_set(ids@).contains(r) by {
                            assert(cc_d[addr]@.contains(r));
                            let k = choose|k: int| 0 <= k < ids@.len() && #[trigger] ids@[k]@ == r;
                            assert(has_prefix(ids@, ids@.len() as int, r));
                        }
                    }
                    assert(self.client_calls@.dom() =~= old_cc.dom().remove(addr));
                    lemma_disconnect_calls(
                        old_pend, old_cc, old_ec,
                        self.pending_calls@, self.client_calls@, self.endpoint_calls@,
                        services, failed, id_set(ids@), addr,
                    );
                }
            },
            None => {
                proof {
                    assert(self.pending_calls@.remove_keys(Set::empty()) =~= self.pending_calls@);
                    assert(!old_cc.contains_key(addr));
                    assert(self.client_calls@.dom() =~= old_cc.dom().remove(addr));
                    assert forall|s: Seq<char>| #[trigger] ec_b.contains_key(s) implies ec_b[s]@ == old_ec[s]@.difference(Set::empty()) by {
                        assert(ec_b[s]@ =~= old_ec[s]@.difference(Set::empty()));
                    }
                    lemma_disconnect_calls(
                        old_pend, old_cc, old_ec,
                        self.pending_calls@, self.client_calls@, self.endpoint_calls@,
                        services, failed, Set::empty(), addr,
                    );
                }
            },
        }
        proof {
            assert(services =~= Set::new(|s: Seq<char>| old_reg.contains_key(s) && old_reg[s] == addr));
            lemma_disconnect_services(old_reg, old_rev, self.registered_endpoints@, self.reversed_endpoints@, services, addr);
            assert(self@.pending =~= v.pending.remove_keys(v.dropped_by(addr)));
        }
        Ok(notices)
    }

    /// Handles a message received from the connection `addr`, and gives
    /// back the message to send in answer, if any.
    pub fn handle_message(&mut self, addr: u64, msg: GsbMessage) -> (res: Result<Option<Outgoing>, RouterError>)
        requires
            old(self).wf(),
        ensures
            final(self).wf(),
            match msg {
                GsbMessage::RegisterRequest(m) => exists|r: Result<Outgoing, RouterError>|
                    res == some_out(r) && register_done(old(self)@, final(self)@, addr, m.service_id@, r),
                GsbMessage::UnregisterRequest(m) => exists|r: Result<Outgoing, RouterError>|
                    res == some_out(r) && unregister_done(old(self)@, final(self)@, addr, m.service_id@, r),
                GsbMessage::CallRequest(m) => exists|r: Result<Outgoing, RouterError>|
                    res == some_out(r) && call_done(old(self)@, final(self)@, addr, m, r),
                GsbMessage::CallReply(m) => reply_done(old(self)@, final(self)@, m, res),
                _ => {
                    &&& res == Err::<Option<Outgoing>, RouterError>(RouterError::UnexpectedMessage(msg))
                    &&& final(self)@.senders == old(self)@.senders
                    &&& final(self)@.registered == old(self)@.registered
                    &&& final(self)@.pending == old(self)@.pending
                },
            },
    {
        match msg {
            GsbMessage::RegisterRequest(m) => {
                let ghost before = self@;
                let ghost gm = m;
                let r = self.register_endpoint(addr, m);
                let ghost gr = r;
                let res = match r {
                    Ok(out) => Ok(Some(out)),
                    Err(e) => Err(e),
                };
                assert(res == some_out(gr) && register_done(before, self@, addr, gm.service_id@, gr));
                res
            },
            GsbMessage::UnregisterRequest(m) => {
                let ghost before = self@;
                let ghost gm = m;
                let r = self.unregister_endpoint(addr, m);
                let ghost gr = r;
                let res = match r {
                    Ok(out) => Ok(Some(out)),
                    Err(e) => Err(e),
                };
                assert(res == some_out(gr) && unregister_done(before, self@, addr, gm.service_id@, gr));
                res
            },
            GsbMessage::CallRequest(m) => {
                let ghost before = self@;
                let ghost gm = m;
                let r = self.call(addr, m);
                let ghost gr = r;
                let res = match r {
                    Ok(out) => Ok(Some(out)),
                    Err(e) => Err(e),
                };
                assert(res == some_out(gr) && call_done(before, self@, addr, gm, gr));
                res
            },
            GsbMessage::CallReply(m) => self.reply(addr, m),
            other => Err(RouterError::UnexpectedMessage(other)),
        }
    }

    /// A client calls the service registered under `msg.address`. A call
    /// with a fresh request ID to a registered service is recorded as pending
    /// and forwarded to the service's server; any other call is answered at
    /// once with a refusal.
    pub fn call(&mut self, caller_addr: u64, msg: CallRequest) -> (res: Result<Outgoing, RouterError>)
        requires
            old(self).wf(),
        ensures
            final(self).wf(),
            call_done(old(self)@, final(self)@, caller_addr, msg, res),
    {
        let ghost old_pend = self.pending_calls@;
        let ghost old_cc = self.client_calls@;
        let ghost old_ec = self.endpoint_calls@;
        let server_addr: Result<u64, Vec<u8>> = if self.pending_calls.contains_key(&msg.request_id) {
            Err("CallRequest with this ID already exists".as_bytes_vec())
        } else {
            match self.registered_endpoints.get(&msg.address) {
                None => Err("No service registered under given address".as_bytes_vec()),
                Some(addr) => {
                    let addr = *addr;
                    self.pending_calls.insert(
                        msg.request_id.clone(),
                        PendingCall { caller_addr, service_id: msg.address.clone() },
                    );
                    let mut service_calls = match self.endpoint_calls.remove(&msg.address) {
                        Some(set) => set,
                        None => StrSet::new(),
                    };
                    service_calls.insert(msg.request_id.clone());
                    self.endpoint_calls.insert(msg.address.clone(), service_calls);
                    let mut caller_calls = match self.client_calls.remove(&caller_addr) {
                        Some(set) => set,
                        None => StrSet::new(),
                    };
                    caller_calls.insert(msg.request_id.clone());
                    self.client_calls.insert(caller_addr, caller_calls);
                    proof {
                        lemma_call_recorded(
                            old_pend, old_cc, old_ec,
                            self.pending_calls@, self.client_calls@, self.endpoint_calls@,
                            msg.request_id@, caller_addr, msg.address@,
                        );
                        assert(self@.pending =~= old(self)@.pending.insert(
                            msg.request_id@, CallView { caller: caller_addr, service: msg.address@ }));
                    }
                    Ok(addr)
                },
            }
        };
        match server_addr {
            Ok(addr) => self.send_message(addr, GsbMessage::CallRequest(msg)),
            Err(data) => {
                let reply = CallReply {
                    request_id: msg.request_id,
                    code: CALL_REPLY_BAD_REQUEST,
                    reply_type: REPLY_TYPE_FULL,
                    data,
                };
                self.send_message(caller_addr, GsbMessage::CallReply(reply))
            },
        }
    }

    /// A server replies to the call `msg.request_id`. The reply goes to the
    /// caller; a full reply ends the call. A reply to no pending call is
    /// dropped.
    pub fn reply(&mut self, server_addr: u64, msg: CallReply) -> (res: Result<Option<Outgoing>, RouterError>)
        requires
            old(self).wf(),
        ensures
            final(self).wf(),
            reply_done(old(self)@, final(self)@, msg, res),
    {
        let ghost old_pend = self.pending_calls@;
        let ghost old_cc = self.client_calls@;
        let ghost old_ec = self.endpoint_calls@;
        let (caller_addr, service_id) = match self.pending_calls.get(&msg.request_id) {
            None => {
                return Ok(None);
            },
            Some(pending_call) => (pending_call.caller_addr, pending_call.service_id.clone()),
        };
        if msg.reply_type == REPLY_TYPE_FULL {
            match self.endpoint_calls.remove(&service_id) {
                None => {
                    return Err(RouterError::ServiceNotFound);
                },
                Some(mut calls) => {
                    calls.remove(&msg.request_id);
                    self.endpoint_calls.insert(service_id, calls);
                },
            }
            match self.client_calls.remove(&caller_addr) {
                None => {
                    return Err(RouterError::ClientNotFound);
                },
                Some(mut calls) => {
                    calls.remove(&msg.request_id);
                    self.client_calls.insert(caller_addr, calls);
                },
            }
            self.pending_calls.remove(&msg.request_id);
            proof {
                lemma_call_ended(
                    old_pend, old_cc, old_ec,
                    self.pending_calls@, self.client_calls@, self.endpoint_calls@,
                    msg.request_id@,
                );
                assert(self@.pending =~= old(self)@.pending.remove(msg.request_id@));
            }
        }
        match self.send_message(caller_addr, GsbMessage::CallReply(msg)) {
            Ok(out) => Ok(Some(out)),
            Err(e) => Err(e),
        }
    }
}

/// Recording a fresh call in the pending calls and in both indexes keeps
/// them in agreement.
proof fn lemma_call_recorded(
    pend: Map<Seq<char>, PendingCall>,
    cc: Map<u64, StrSet>,
    ec: Map<Seq<char>, StrSet>,
    pend2: Map<Seq<char>, PendingCall>,
    cc2: Map<u64, StrSet>,
    ec2: Map<Seq<char>, StrSet>,
    rid: Seq<char>,
    caller: u64,
    svc: Seq<char>,
)
    requires
        calls_indexed(pend, cc, ec),
        !pend.contains_key(rid),
        pend2 == pend.insert(rid, pend2[rid]),
        pend2[rid].caller_addr == caller,
        pend2[rid].service_id@ == svc,
        cc2.contains_key(caller),
        cc2[caller]@ == (if cc.contains_key(caller) { cc[caller]@ } else { Set::empty() }).insert(rid),
        forall|c: u64| c != caller ==> #[trigger] cc2.contains_key(c) == cc.contains_key(c) && (cc.contains_key(c) ==> cc2[c] == cc[c]),
        ec2.contains_key(svc),
        ec2[svc]@ == (if ec.contains_key(svc) { ec[svc]@ } else { Set::empty() }).insert(rid),
        forall|s: Seq<char>| s != svc ==> #[trigger] ec2.contains_key(s) == ec.contains_key(s) && (ec.contains_key(s) ==> ec2[s] == ec[s]),
    ensures
        calls_indexed(pend2, cc2, ec2),
{
    assert forall|r: Seq<char>| #[trigger] pend2.contains_key(r) implies {
            &&& cc2.contains_key(pend2[r].caller_addr)
            &&& cc2[pend2[r].caller_addr]@.contains(r)
            &&& ec2.contains_key(pend2[r].service_id@)
            &&& ec2[pend2[r].service_id@]@.contains(r)
        } by {
        if r != rid {
            assert(pend.contains_key(r));
            assert(pend2[r] == pend[r]);
            let c = pend[r].caller_addr;
            let v = pend[r].service_id@;
            assert(cc.contains_key(c) && cc[c]@.contains(r));
            assert(ec.contains_key(v) && ec[v]@.contains(r));
            if c == caller {
                assert(cc2[c]@.contains(r));
            } else {
                assert(cc2.contains_key(c));
                assert(cc2[c] == cc[c]);
            }
            if v == svc {
                assert(ec2[v]@.contains(r));
            } else {
                assert(ec2.contains_key(v));
                assert(ec2[v] == ec[v]);
            }
        } else {
            assert(cc2[caller]@.contains(rid));
            assert(ec2[svc]@.contains(rid));
        }
    }
    assert forall|c: u64, r: Seq<char>| cc2.contains_key(c) && #[trigger] cc2[c]@.contains(r)
        implies pend2.contains_key(r) && pend2[r].caller_addr == c by {
        if c != caller {
            assert(cc[c]@.contains(r));
        } else if r != rid {
            assert(cc[c]@.contains(r));
        }
    }
    assert forall|s: Seq<char>, r: Seq<char>| ec2.contains_key(s) && #[trigger] ec2[s]@.contains(r)
        implies pend2.contains_key(r) && pend2[r].service_id@ == s by {
        if s != svc {
            assert(ec[s]@.contains(r));
        } else if r != rid {
            assert(ec[s]@.contains(r));
        }
    }
}

/// Removing an ended call from the pending calls and from both indexes
/// keeps them in agreement.
proof fn lemma_call_ended(
    pend: Map<Seq<char>, PendingCall>,
    cc: Map<u64, StrSet>,
    ec: Map<Seq<char>, StrSet>,
    pend2: Map<Seq<char>, PendingCall>,
    cc2: Map<u64, StrSet>,
    ec2: Map<Seq<char>, StrSet>,
    rid: Seq<char>,
)
    requires
        calls_indexed(pend, cc, ec),
        pend.contains_key(rid),
        pend2 == pend.remove(rid),
        ({
            let caller = pend[rid].caller_addr;
            &&& cc2.contains_key(caller)
            &&& cc2[caller]@ == cc[caller]@.remove(rid)
            &&& forall|c: u64| c != caller ==> #[trigger] cc2.contains_key(c) == cc.contains_key(c) && (cc.contains_key(c) ==> cc2[c] == cc[c])
        }),
        ({
            let svc = pend[rid].service_id@;
            &&& ec2.contains_key(svc)
            &&& ec2[svc]@ == ec[svc]@.remove(rid)
            &&& forall|s: Seq<char>| s != svc ==> #[trigger] ec2.contains_key(s) == ec.contains_key(s) && (ec.contains_key(s) ==> ec2[s] == ec[s])
        }),
    ensures
        calls_indexed(pend2, cc2, ec2),
{
    let caller = pend[rid].caller_addr;
    let svc = pend[rid].service_id@;
    assert forall|r: Seq<char>| #[trigger] pend2.contains_key(r) implies {
            &&& cc2.contains_key(pend2[r].caller_addr)
            &&& cc2[pend2[r].caller_addr]@.contains(r)
            &&& ec2.contains_key(pend2[r].service_id@)
            &&& ec2[pend2[r].service_id@]@.contains(r)
        } by {
        assert(pend.contains_key(r));
    }
    assert forall|c: u64, r: Seq<char>| cc2.contains_key(c) && #[trigger] cc2[c]@.contains(r)
        implies pend2.contains_key(r) && pend2[r].caller_addr == c by {
        assert(cc[c]@.contains(r));
    }
    assert forall|s: Seq<char>, r: Seq<char>| ec2.contains_key(s) && #[trigger] ec2[s]@.contains(r)
        implies pend2.contains_key(r) && pend2[r].service_id@ == s by {
        assert(ec[s]@.contains(r));
    }
}

/// The strings that `ids` holds, by their characters.
pub open spec fn id_set(ids: Seq<String>) -> Set<Seq<char>> {
    Set::new(|s: Seq<char>| has_prefix(ids, ids.len() as int, s))
}

/// The keys of `taken`, by their characters.
spec fn taken_keys(taken: Seq<(String, PendingCall)>, n: int) -> Set<Seq<char>> {
    Set::new(|r: Seq<char>| exists|j: int| 0 <= j < n && taken[j].0@ == r)
}

/// Removes every key in `ids` from `m`.
fn remove_all<V>(m: &mut StrMap<V>, ids: &Vec<String>)
    requires
        old(m).wf(),
    ensures
        final(m).wf(),
        final(m)@ == old(m)@.remove_keys(id_set(ids@)),
{
    let n = ids.len();
    for i in 0..n
        invariant
            n == ids@.len(),
            m.wf(),
            m@ == old(m)@.remove_keys(Set::new(|s: Seq<char>| has_prefix(ids@, i as int, s))),
    {
        let ghost prev = m@;
        m.remove(&ids[i]);
        assert(m@ =~= old(m)@.remove_keys(Set::new(|s: Seq<char>| has_prefix(ids@, i + 1, s)))) by {
            assert forall|s: Seq<char>| has_prefix(ids@, i + 1, s) == (has_prefix(ids@, i as int, s) || s
                == ids@[i as int]@) by {
                if has_prefix(ids@, i + 1, s) {
                    let k = choose|k: int| 0 <= k < i + 1 && ids@[k]@ == s;
                    if k < i {
                        assert(has_prefix(ids@, i as int, s));
                    }
                }
                if has_prefix(ids@, i as int, s) {
                    let k = choose|k: int| 0 <= k < i && ids@[k]@ == s;
                    assert(has_prefix(ids@, i + 1, s));
                }
            }
        }
    }
    assert(m@ =~= old(m)@.remove_keys(id_set(ids@)));
}

/// Takes out of `ec` the call sets of the services in `ids`, and gives
/// back the calls that they held.
fn take_call_sets(ec: &mut StrMap<StrSet>, ids: &Vec<String>) -> (calls: Vec<String>)
    requires
        old(ec).wf(),
    ensures
        final(ec).wf(),
        final(ec)@ == old(ec)@.remove_keys(id_set(ids@)),
        forall|r: Seq<char>| #[trigger] id_set(calls@).contains(r) ==> exists|s: Seq<char>|
            id_set(ids@).contains(s) && old(ec)@.contains_key(s) && #[trigger] old(ec)@[s]@.contains(r),
        forall|s: Seq<char>, r: Seq<char>|
            id_set(ids@).contains(s) && old(ec)@.contains_key(s) && #[trigger] old(ec)@[s]@.contains(r)
                ==> id_set(calls@).contains(r),
{
    let mut calls: Vec<String> = Vec::new();
    let n = ids.len();
    for i in 0..n
        invariant
            n == ids@.len(),
            ec.wf(),
            ec@ == old(ec)@.remove_keys(Set::new(|s: Seq<char>| has_prefix(ids@, i as int, s))),
            forall|r: Seq<char>| #[trigger] id_set(calls@).contains(r) ==> exists|s: Seq<char>|
                has_prefix(ids@, i as int, s) && old(ec)@.contains_key(s) && #[trigger] old(ec)@[s]@.contains(r),
            forall|s: Seq<char>, r: Seq<char>|
                has_prefix(ids@, i as int, s) && old(ec)@.contains_key(s) && #[trigger] old(ec)@[s]@.contains(r)
                    ==> id_set(calls@).contains(r),
    {
        let ghost prev_calls = calls@;
        let ghost prev_ec = ec@;
        let ghost sid = ids@[i as int]@;
        assert forall|s: Seq<char>| has_prefix(ids@, i + 1, s) == (has_prefix(ids@, i as int, s) || s == sid) by {
            if has_prefix(ids@, i + 1, s) {
                let k = choose|k: int| 0 <= k < i + 1 && ids@[k]@ == s;
                if k < i {
                    assert(has_prefix(ids@, i as int, s));
                }
            }
            if has_prefix(ids@, i as int, s) {
                let k = choose|k: int| 0 <= k < i && ids@[k]@ == s;
                assert(has_prefix(ids@, i + 1, s));
            }
        }
        match ec.remove(&ids[i]) {
            Some(set) => {
                let mut v = set.into_vec();
                let ghost added = v@;
                calls.append(&mut v);
                assert forall|r: Seq<char>| #[trigger] id_set(calls@).contains(r) == (id_set(prev_calls).contains(r)
                    || prev_ec[sid]@.contains(r)) by {
                    if id_set(calls@).contains(r) {
                        let k = choose|k: int| 0 <= k < calls@.len() && calls@[k]@ == r;
                        if k < prev_calls.len() {
                            assert(calls@[k] == prev_calls[k]);
                            assert(has_prefix(prev_calls, prev_calls.len() as int, r));
                        } else {
                            assert(calls@[k] == added[k - prev_calls.len()]);
                        }
                    }
                    if id_set(prev_calls).contains(r) {
                        let k = choose|k: int| 0 <= k < prev_calls.len() && prev_calls[k]@ == r;
                        assert(calls@[k] == prev_calls[k]);
                        assert(has_prefix(calls@, calls@.len() as int, r));
                    }
                    if prev_ec[sid]@.contains(r) {
                        let k = choose|k: int| 0 <= k < added.len() && added[k]@ == r;
                        assert(calls@[prev_calls.len() + k] == added[k]);
                        assert(has_prefix(calls@, calls@.len() as int, r));
                    }
                }
                assert(old(ec)@.contains_key(sid) && old(ec)@[sid] == prev_ec[sid]);
            },
            None => {
                assert(!old(ec)@.contains_key(sid) || has_prefix(ids@, i as int, sid));
            },
        }
        assert(ec@ =~= old(ec)@.remove_keys(Set::new(|s: Seq<char>| has_prefix(ids@, i + 1, s))));
    }
    assert(ec@ =~= old(ec)@.remove_keys(id_set(ids@)));
    calls
}

/// `has_prefix` over one more element adds that element.
proof fn lemma_prefix_step(ids: Seq<String>, i: int)
    requires
        0 <= i < ids.len(),
    ensures
        forall|s: Seq<char>| #[trigger] has_prefix(ids, i + 1, s) == (has_prefix(ids, i, s) || s == ids[i]@),
{
    assert forall|s: Seq<char>| #[trigger] has_prefix(ids, i + 1, s) == (has_prefix(ids, i, s) || s == ids[i]@) by {
        if has_prefix(ids, i + 1, s) {
            let k = choose|k: int| 0 <= k < i + 1 && ids[k]@ == s;
            if k < i {
                assert(has_prefix(ids, i, s));
            }
        }
        if has_prefix(ids, i, s) {
            let k = choose|k: int| 0 <= k < i && ids[k]@ == s;
            assert(has_prefix(ids, i + 1, s));
        }
        if s == ids[i]@ {
            assert(has_prefix(ids, i + 1, s));
        }
    }
}

/// Takes out of `pend` the calls in `ids`, and gives them back with their
/// IDs, each once.
fn take_pending(pend: &mut StrMap<PendingCall>, ids: &Vec<String>) -> (taken: Vec<(String, PendingCall)>)
    requires
        old(pend).wf(),
    ensures
        final(pend).wf(),
        final(pend)@ == old(pend)@.remove_keys(id_set(ids@)),
        forall|j: int| 0 <= j < taken@.len() ==> {
            &&& old(pend)@.contains_key(#[trigger] taken@[j].0@)
            &&& taken@[j].1 == old(pend)@[taken@[j].0@]
            &&& id_set(ids@).contains(taken@[j].0@)
        },
        forall|j: int, k: int| 0 <= j < k < taken@.len() ==> #[trigger] taken@[j].0@ != #[trigger] taken@[k].0@,
        forall|r: Seq<char>| id_set(ids@).contains(r) && old(pend)@.contains_key(r) ==> #[trigger] taken_keys(
            taken@, taken@.len() as int).contains(r),
{
    let mut taken: Vec<(String, PendingCall)> = Vec::new();
    let n = ids.len();
    for i in 0..n
        invariant
            n == ids@.len(),
            pend.wf(),
            pend@ == old(pend)@.remove_keys(Set::new(|s: Seq<char>| has_prefix(ids@, i as int, s))),
            forall|j: int| 0 <= j < taken@.len() ==> {
                &&& old(pend)@.contains_key(#[trigger] taken@[j].0@)
                &&& taken@[j].1 == old(pend)@[taken@[j].0@]
                &&& has_prefix(ids@, i as int, taken@[j].0@)
            },
            forall|j: int, k: int| 0 <= j < k < taken@.len() ==> #[trigger] taken@[j].0@ != #[trigger] taken@[k].0@,
            forall|r: Seq<char>| has_prefix(ids@, i as int, r) && old(pend)@.contains_key(r) ==> #[trigger] taken_keys(
                taken@, taken@.len() as int).contains(r),
    {
        proof {
            lemma_prefix_step(ids@, i as int);
        }
        let ghost prev = taken@;
        let ghost rid = ids@[i as int]@;
        match pend.remove(&ids[i]) {
            Some(pc) => {
                taken.push((ids[i].clone(), pc));
                assert forall|r: Seq<char>| #[trigger] taken_keys(prev, prev.len() as int).contains(r) implies
                    taken_keys(taken@, taken@.len() as int).contains(r) by {
                    let j = choose|j: int| 0 <= j < prev.len() && prev[j].0@ == r;
                    assert(taken@[j] == prev[j]);
                }
                assert(taken_keys(taken@, taken@.len() as int).contains(rid)) by {
                    assert(taken@[prev.len() as int].0@ == rid);
                }
                assert forall|j: int| 0 <= j < prev.len() implies #[trigger] prev[j].0@ != rid by {
                    assert(has_prefix(ids@, i as int, prev[j].0@));
                }
            },
            None => {
                proof {
                    if old(pend)@.contains_key(rid) {
                        assert(Set::new(|s: Seq<char>| has_prefix(ids@, i as int, s)).contains(rid));
                        assert(has_prefix(ids@, i as int, rid));
                        assert(taken_keys(taken@, taken@.len() as int).contains(rid));
                    }
                }
            },
        }
        assert forall|r: Seq<char>| has_prefix(ids@, i + 1, r) && old(pend)@.contains_key(r) implies #[trigger] taken_keys(
            taken@, taken@.len() as int).contains(r) by {
            if r != rid {
                assert(has_prefix(ids@, i as int, r));
                assert(taken_keys(prev, prev.len() as int).contains(r));
            }
        }
        assert(pend@ =~= old(pend)@.remove_keys(Set::new(|s: Seq<char>| has_prefix(ids@, i + 1, s))));
    }
    assert(pend@ =~= old(pend)@.remove_keys(id_set(ids@)));
    taken
}

/// Sends `msg` through `dispatcher` to the connection `addr`, if it is open.
fn deliver<S>(dispatcher: &MessageDispatcher<S>, addr: u64, msg: GsbMessage) -> (res: Result<Outgoing, RouterError>)
    ensures
        dispatcher@.contains_key(addr) ==> res == Ok::<Outgoing, RouterError>(Outgoing { to: addr, msg }),
        !dispatcher@.contains_key(addr) ==> res matches Err(RouterError::SenderNotRegistered),
{
    match dispatcher.send_message(addr, msg) {
        Ok((_, msg)) => Ok(Outgoing { to: addr, msg }),
        Err(e) => Err(e),
    }
}

/// Tells the caller of each call in `taken` that the service failed, and
/// strikes the call from its caller's calls.
fn notify_callers<S>(
    cc: &mut HashMap<u64, StrSet>,
    dispatcher: &MessageDispatcher<S>,
    taken: &Vec<(String, PendingCall)>,
) -> (notices: Vec<Result<Outgoing, RouterError>>)
    requires
        forall|j: int| 0 <= j < taken@.len() ==> old(cc)@.contains_key(#[trigger] taken@[j].1.caller_addr),
        forall|j: int, c: u64|
            0 <= j < taken@.len() && old(cc)@.contains_key(c) && #[trigger] old(cc)@[c]@.contains(#[trigger] taken@[j].0@)
                ==> c == taken@[j].1.caller_addr,
    ensures
        final(cc)@.dom() == old(cc)@.dom(),
        forall|c: u64| #[trigger] old(cc)@.contains_key(c) ==> final(cc)@[c]@ == old(cc)@[c]@.difference(
            taken_keys(taken@, taken@.len() as int)),
        notices@.len() == taken@.len(),
        forall|j: int| 0 <= j < taken@.len() ==> sent_to(#[trigger] notices@[j], dispatcher@.dom(), taken@[j].1.caller_addr,
            |m| is_call_reply(m, taken@[j].0@, SERVICE_FAILURE, disconnected_text())),
{
    let mut notices: Vec<Result<Outgoing, RouterError>> = Vec::new();
    let n = taken.len();
    for i in 0..n
        invariant
            n == taken@.len(),
            forall|j: int| 0 <= j < taken@.len() ==> old(cc)@.contains_key(#[trigger] taken@[j].1.caller_addr),
            forall|j: int, c: u64|
                0 <= j < taken@.len() && old(cc)@.contains_key(c) && #[trigger] old(cc)@[c]@.contains(#[trigger] taken@[j].0@)
                    ==> c == taken@[j].1.caller_addr,
            cc@.dom() == old(cc)@.dom(),
            forall|c: u64| #[trigger] old(cc)@.contains_key(c) ==> cc@[c]@ == old(cc)@[c]@.difference(
                taken_keys(taken@, i as int)),
            notices@.len() == i,
            forall|j: int| 0 <= j < i ==> sent_to(#[trigger] notices@[j], dispatcher@.dom(), taken@[j].1.caller_addr,
                |m| is_call_reply(m, taken@[j].0@, SERVICE_FAILURE, disconnected_text())),
    {
        let caller_addr = taken[i].1.caller_addr;
        let ghost rid = taken@[i as int].0@;
        let ghost prev_cc = cc@;
        assert(taken_keys(taken@, i + 1) =~= taken_keys(taken@, i as int).insert(rid)) by {
            assert forall|r: Seq<char>| taken_keys(taken@, i + 1).contains(r) implies taken_keys(taken@, i as int).insert(rid).contains(r) by {
                let j = choose|j: int| 0 <= j < i + 1 && taken@[j].0@ == r;
                if j < i {
                    assert(taken_keys(taken@, i as int).contains(r));
                }
            }
            assert forall|r: Seq<char>| taken_keys(taken@, i as int).insert(rid).contains(r) implies taken_keys(taken@, i + 1).contains(r) by {
                if r == rid {
                    assert(taken@[i as int].0@ == r);
                } else {
                    let j = choose|j: int| 0 <= j < i && taken@[j].0@ == r;
                    assert(taken@[j].0@ == r);
                }
            }
        }
        match cc.remove(&caller_addr) {
            Some(mut calls) => {
                calls.remove(&taken[i].0);
                cc.insert(caller_addr, calls);
            },
            None => {},
        }
        proof {
            assert forall|c: u64| #[trigger] old(cc)@.contains_key(c) implies cc@[c]@ == old(cc)@[c]@.difference(
                taken_keys(taken@, i + 1)) by {
                if c == caller_addr {
                    assert(cc@[c]@ =~= old(cc)@[c]@.difference(taken_keys(taken@, i + 1)));
                } else {
                    assert(cc@[c] == prev_cc[c]);
                    assert(!old(cc)@[c]@.contains(rid));
                    assert(cc@[c]@ =~= old(cc)@[c]@.difference(taken_keys(taken@, i + 1)));
                }
            }
            assert(cc@.dom() =~= old(cc)@.dom());
        }
        let reply = CallReply {
            request_id: taken[i].0.clone(),
            code: SERVICE_FAILURE,
            reply_type: REPLY_TYPE_FULL,
            data: "Service disconnected".as_bytes_vec(),
        };
        notices.push(deliver(dispatcher, caller_addr, GsbMessage::CallReply(reply)));
    }
    notices
}

/// Ends the calls in `ids`: takes them out of `pend` and out of the call
/// sets of their services in `ec`.
fn drop_calls(pend: &mut StrMap<PendingCall>, ec: &mut StrMap<StrSet>, ids: &Vec<String>)
    requires
        old(pend).wf(),
        old(ec).wf(),
        forall|r: Seq<char>| #[trigger] id_set(ids@).contains(r) ==> old(pend)@.contains_key(r) && old(ec)@.contains_key(
            old(pend)@[r].service_id@),
        forall|s: Seq<char>, r: Seq<char>|
            id_set(ids@).contains(r) && old(ec)@.contains_key(s) && #[trigger] old(ec)@[s]@.contains(r)
                ==> old(pend)@[r].service_id@ == s,
    ensures
        final(pend).wf(),
        final(ec).wf(),
        final(pend)@ == old(pend)@.remove_keys(id_set(ids@)),
        final(ec)@.dom() == old(ec)@.dom(),
        forall|s: Seq<char>| #[trigger] old(ec)@.contains_key(s) ==> final(ec)@[s]@ == old(ec)@[s]@.difference(
            id_set(ids@)),
{
    let n = ids.len();
    for i in 0..n
        invariant
            n == ids@.len(),
            pend.wf(),
            ec.wf(),
            forall|r: Seq<char>| #[trigger] id_set(ids@).contains(r) ==> old(pend)@.contains_key(r) && old(ec)@.contains_key(
                old(pend)@[r].service_id@),
            forall|s: Seq<char>, r: Seq<char>|
                id_set(ids@).contains(r) && old(ec)@.contains_key(s) && #[trigger] old(ec)@[s]@.contains(r)
                    ==> old(pend)@[r].service_id@ == s,
            pend@ == old(pend)@.remove_keys(Set::new(|s: Seq<char>| has_prefix(ids@, i as int, s))),
            ec@.dom() == old(ec)@.dom(),
            forall|s: Seq<char>| #[trigger] old(ec)@.contains_key(s) ==> ec@[s]@ == old(ec)@[s]@.difference(
                Set::new(|r: Seq<char>| has_prefix(ids@, i as int, r))),
    {
        proof {
            lemma_prefix_step(ids@, i as int);
        }
        let ghost rid = ids@[i as int]@;
        let ghost prev_ec = ec@;
        assert(id_set(ids@).contains(rid)) by {
            assert(has_prefix(ids@, ids@.len() as int, rid));
        }
        match pend.remove(&ids[i]) {
            Some(pc) => {
                let ghost svc = pc.service_id@;
                match ec.remove(&pc.service_id) {
                    Some(mut calls) => {
                        calls.remove(&ids[i]);
                        ec.insert(pc.service_id, calls);
                    },
                    None => {},
                }
                proof {
                    assert forall|s: Seq<char>| #[trigger] old(ec)@.contains_key(s) implies ec@[s]@ == old(ec)@[s]@.difference(
                        Set::new(|r: Seq<char>| has_prefix(ids@, i + 1, r))) by {
                        if s == svc {
                            assert(ec@[s]@ =~= old(ec)@[s]@.difference(Set::new(|r: Seq<char>| has_prefix(ids@, i + 1, r))));
                        } else {
                            assert(ec@[s] == prev_ec[s]);
                            assert(!old(ec)@[s]@.contains(rid));
                            assert(ec@[s]@ =~= old(ec)@[s]@.difference(Set::new(|r: Seq<char>| has_prefix(ids@, i + 1, r))));
                        }
                    }
                    assert(ec@.dom() =~= old(ec)@.dom());
                }
            },
            None => {
                proof {
                    assert(has_prefix(ids@, i as int, rid));
                    assert forall|s: Seq<char>| #[trigger] old(ec)@.contains_key(s) implies ec@[s]@ == old(ec)@[s]@.difference(
                        Set::new(|r: Seq<char>| has_prefix(ids@, i + 1, r))) by {
                        assert(ec@[s]@ =~= old(ec)@[s]@.difference(Set::new(|r: Seq<char>| has_prefix(ids@, i + 1, r))));
                    }
                }
            },
        }
        assert(pend@ =~= old(pend)@.remove_keys(Set::new(|s: Seq<char>| has_prefix(ids@, i + 1, s))));
    }
    assert(pend@ =~= old(pend)@.remove_keys(id_set(ids@)));
    assert forall|s: Seq<char>| #[trigger] old(ec)@.contains_key(s) implies ec@[s]@ == old(ec)@[s]@.difference(
        id_set(ids@)) by {
        assert(ec@[s]@ =~= old(ec)@[s]@.difference(id_set(ids@)));
    }
}

/// Unregistering every service of `addr` and forgetting its list of
/// services keeps registrations and lists in agreement.
proof fn lemma_disconnect_services(
    reg: Map<Seq<char>, u64>,
    rev: Map<u64, StrSet>,
    reg2: Map<Seq<char>, u64>,
    rev2: Map<u64, StrSet>,
    services: Set<Seq<char>>,
    addr: u64,
)
    requires
        services_indexed(reg, rev),
        services == Set::new(|s: Seq<char>| reg.contains_key(s) && reg[s] == addr),
        reg2 == reg.remove_keys(services),
        rev2 == rev.remove(addr),
    ensures
        services_indexed(reg2, rev2),
{
    assert forall|a: u64, s: Seq<char>|
        rev2.contains_key(a) && #[trigger] rev2[a]@.contains(s) implies reg2.contains_key(s) && reg2[s] == a by {
        assert(rev[a]@.contains(s));
        assert(!services.contains(s));
    }
}

/// After a disconnect of `addr`, the calls that remain pending, the
/// callers' lists without the failed calls, and the services' lists without
/// the dropped calls of `addr` agree.
proof fn lemma_disconnect_calls(
    pend: Map<Seq<char>, PendingCall>,
    cc: Map<u64, StrSet>,
    ec: Map<Seq<char>, StrSet>,
    pend2: Map<Seq<char>, PendingCall>,
    cc2: Map<u64, StrSet>,
    ec2: Map<Seq<char>, StrSet>,
    services: Set<Seq<char>>,
    failed: Set<Seq<char>>,
    made: Set<Seq<char>>,
    addr: u64,
)
    requires
        calls_indexed(pend, cc, ec),
        failed == Set::new(|r: Seq<char>| pend.contains_key(r) && services.contains(pend[r].service_id@)),
        cc.contains_key(addr) ==> made == cc[addr]@.difference(failed),
        !cc.contains_key(addr) ==> made == Set::<Seq<char>>::empty(),
        pend2 == pend.remove_keys(failed).remove_keys(made),
        cc2.dom() == cc.dom().remove(addr),
        forall|c: u64| #[trigger] cc2.contains_key(c) ==> cc2[c]@ == cc[c]@.difference(failed),
        ec2.dom() == ec.dom().difference(services),
        forall|s: Seq<char>| #[trigger] ec2.contains_key(s) ==> ec2[s]@ == ec[s]@.difference(made),
    ensures
        calls_indexed(pend2, cc2, ec2),
        pend2 == pend.remove_keys(Set::new(|r: Seq<char>| pend.contains_key(r) && (services.contains(pend[r].service_id@) || pend[r].caller_addr == addr))),
{
    assert forall|r: Seq<char>| #[trigger] pend2.contains_key(r) implies {
            &&& cc2.contains_key(pend2[r].caller_addr)
            &&& cc2[pend2[r].caller_addr]@.contains(r)
            &&& ec2.contains_key(pend2[r].service_id@)
            &&& ec2[pend2[r].service_id@]@.contains(r)
        } by {
        assert(pend.contains_key(r) && pend2[r] == pend[r]);
        let c = pend[r].caller_addr;
        let s = pend[r].service_id@;
        assert(cc.contains_key(c) && cc[c]@.contains(r));
        assert(!failed.contains(r));
        if c == addr {
            assert(made.contains(r));
        }
        assert(cc2.dom().contains(c));
        assert(ec.contains_key(s) && ec[s]@.contains(r));
        assert(!services.contains(s));
        assert(ec2.dom().contains(s));
    }
    assert forall|c: u64, r: Seq<char>| cc2.contains_key(c) && #[trigger] cc2[c]@.contains(r)
        implies pend2.contains_key(r) && pend2[r].caller_addr == c by {
        assert(cc[c]@.contains(r) && !failed.contains(r));
        assert(pend.contains_key(r) && pend[r].caller_addr == c);
        assert(cc2.dom().contains(c));
        if made.contains(r) {
            assert(cc[addr]@.contains(r));
        }
    }
    assert forall|s: Seq<char>, r: Seq<char>| ec2.contains_key(s) && #[trigger] ec2[s]@.contains(r)
        implies pend2.contains_key(r) && pend2[r].service_id@ == s by {
        assert(ec[s]@.contains(r) && !made.contains(r));
        assert(pend.contains_key(r) && pend[r].service_id@ == s);
        assert(ec2.dom().contains(s));
        assert(!services.contains(s));
    }
    assert(pend2 =~= pend.remove_keys(Set::new(|r: Seq<char>| pend.contains_key(r) && (services.contains(pend[r].service_id@) || pend[r].caller_addr == addr)))) by {
        assert forall|r: Seq<char>| pend.contains_key(r) && pend[r].caller_addr == addr && !failed.contains(r) implies made.contains(r) by {
            assert(cc.contains_key(addr) && cc[addr]@.contains(r));
        }
    }
}

} // verus!
