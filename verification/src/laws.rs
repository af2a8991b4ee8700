//! Properties of the library that relate several operations.

use vstd::prelude::*;
use vstd::std_specs::convert::FromSpec;

use crate::activity_state::{ActivityState, State, StatePair};
use crate::gsb::{CallReply, CallRequest, GsbMessage, REGISTERED_OK, SERVICE_FAILURE, REPLY_TYPE_FULL, UNREGISTERED_OK};
use crate::router::{
    call_done, connect_done, disconnect_done, failure_notices, is_call_reply, is_register_reply, is_unregister_reply, disconnected_text, register_done, registered_text,
    reply_done, sent_to, unregister_done, valid_service_id, is_service_id_char, Outgoing, RouterView,
};
use crate::dispatcher::RouterError;

verus! {

/// An activity made pending on `s` stays alive exactly when neither its
/// current state nor `s` is `Terminated`.
pub proof fn lemma_pending_alive(p: StatePair, s: State)
    ensures
        StatePair(p.0, Some(s)).is_alive() == (p.0 != State::Terminated && s != State::Terminated),
{
}

/// A state pair made from a single state has nothing pending, and is alive
/// unless that state is `Terminated`.
pub proof fn lemma_from_state(s: State)
    ensures
        <StatePair as FromSpec<State>>::from_spec(s) == StatePair(s, None),
        <StatePair as FromSpec<State>>::from_spec(s).is_alive() == (s != State::Terminated),
{
}

/// An activity state made from a state pair keeps the pair whole, current
/// and pending state alike, and has no reason and no error.
pub proof fn lemma_activity_from_pair(p: StatePair)
    ensures
        <ActivityState as FromSpec<StatePair>>::from_spec(p).state == p,
        <ActivityState as FromSpec<StatePair>>::from_spec(p).state.0 == p.0,
        <ActivityState as FromSpec<StatePair>>::from_spec(p).state.1 == p.1,
        <ActivityState as FromSpec<StatePair>>::from_spec(p).reason is None,
        <ActivityState as FromSpec<StatePair>>::from_spec(p).error_message is None,
        <ActivityState as FromSpec<StatePair>>::from_spec(p).state.is_alive() == p.is_alive(),
{
}

/// An activity state made from a borrowed state pair is the same as one
/// made from the pair itself: it keeps the pair whole, with no reason and no
/// error.
pub proof fn lemma_activity_from_borrowed_pair(p: StatePair)
    ensures
        <ActivityState as FromSpec<&StatePair>>::from_spec(&p) == (ActivityState {
            state: p,
            reason: None,
            error_message: None,
        }),
        <ActivityState as FromSpec<&StatePair>>::from_spec(&p) == <ActivityState as FromSpec<StatePair>>::from_spec(p),
        <ActivityState as FromSpec<&StatePair>>::from_spec(&p).state.1 == p.1,
{
}

/// An activity state made from a pair that was made pending on `s` still
/// records `s` as the state it is moving to.
pub proof fn lemma_activity_from_pending(p: StatePair, s: State)
    ensures
        <ActivityState as FromSpec<StatePair>>::from_spec(StatePair(p.0, Some(s))).state.1 == Some(s),
        <ActivityState as FromSpec<&StatePair>>::from_spec(&StatePair(p.0, Some(s))).state.1 == Some(s),
{
}

/// A character may stand in a service ID exactly when it is an ASCII digit
/// (code 0x30 to 0x39), an upper-case ASCII letter (0x41 to 0x5A), a
/// lower-case ASCII letter (0x61 to 0x7A), or one of `/`, `_` and `-`.
pub proof fn lemma_service_id_chars(c: char)
    ensures
        is_service_id_char(c) <==> (
            (0x30 <= (c as u32) && (c as u32) <= 0x39)
            || (0x41 <= (c as u32) && (c as u32) <= 0x5A)
            || (0x61 <= (c as u32) && (c as u32) <= 0x7A)
            || (c as u32) == 0x2F
            || (c as u32) == 0x5F
            || (c as u32) == 0x2D),
{
}

/// A registration of a fresh ID made only of ASCII letters of either case,
/// ASCII digits, `/`, `_` and `-` succeeds: the ID is registered to the
/// server, which is told so.
pub proof fn lemma_register_fresh_ascii_id<S>(
    v: RouterView<S>,
    w: RouterView<S>,
    addr: u64,
    sid: Seq<char>,
    res: Result<Outgoing, RouterError>,
)
    requires
        !v.registered.contains_key(sid),
        forall|i: int| 0 <= i < sid.len() ==> {
            let k = #[trigger] sid[i] as u32;
            (0x30 <= k && k <= 0x39) || (0x41 <= k && k <= 0x5A) || (0x61 <= k && k <= 0x7A) || k == 0x2F
                || k == 0x5F || k == 0x2D
        },
        register_done(v, w, addr, sid, res),
    ensures
        valid_service_id(sid),
        w.registered == v.registered.insert(sid, addr),
        sent_to(res, v.connected(), addr, |m| is_register_reply(m, REGISTERED_OK, registered_text())),
{
    assert forall|i: int| 0 <= i < sid.len() implies is_service_id_char(#[trigger] sid[i]) by {
        lemma_service_id_chars(sid[i]);
    }
}

/// A server that registers a fresh, well-formed service ID and then
/// unregisters it leaves the registrations as they were, and is told both
/// times that it succeeded.
pub proof fn lemma_register_then_unregister<S>(
    v: RouterView<S>,
    w: RouterView<S>,
    u: RouterView<S>,
    addr: u64,
    sid: Seq<char>,
    registered: Result<Outgoing, RouterError>,
    unregistered: Result<Outgoing, RouterError>,
)
    requires
        valid_service_id(sid),
        !v.registered.contains_key(sid),
        register_done(v, w, addr, sid, registered),
        unregister_done(w, u, addr, sid, unregistered),
    ensures
        u.registered == v.registered,
        u.pending == v.pending,
        u.senders == v.senders,
        sent_to(registered, v.connected(), addr, |m| is_register_reply(m, REGISTERED_OK, registered_text())),
        sent_to(unregistered, v.connected(), addr, |m| is_unregister_reply(m, UNREGISTERED_OK)),
{
    assert(u.registered =~= v.registered);
}

/// A call to a registered service followed by a full reply from it ends
/// the call: the pending calls are as before, the request reaches the
/// server, and the reply reaches the caller.
pub proof fn lemma_call_then_full_reply<S>(
    v: RouterView<S>,
    w: RouterView<S>,
    u: RouterView<S>,
    caller: u64,
    call: CallRequest,
    forwarded: Result<Outgoing, RouterError>,
    reply: CallReply,
    answered: Result<Option<Outgoing>, RouterError>,
)
    requires
        !v.pending.contains_key(call.request_id@),
        v.registered.contains_key(call.address@),
        reply.request_id@ == call.request_id@,
        reply.reply_type == REPLY_TYPE_FULL,
        call_done(v, w, caller, call, forwarded),
        reply_done(w, u, reply, answered),
    ensures
        u.pending == v.pending,
        u.registered == v.registered,
        sent_to(forwarded, v.connected(), v.registered[call.address@], |m| m == GsbMessage::CallRequest(call)),
        v.connected().contains(caller) ==> answered == Ok::<Option<Outgoing>, RouterError>(
            Some(Outgoing { to: caller, msg: GsbMessage::CallReply(reply) }),
        ),
        !v.connected().contains(caller) ==> answered matches Err(RouterError::SenderNotRegistered),
{
    assert(u.pending =~= v.pending);
}

/// After `addr` disconnects, it is not connected, serves no service, and no
/// pending call was made by it or goes to a service it served.
pub proof fn lemma_disconnect_leaves_nothing<S>(v: RouterView<S>, w: RouterView<S>, addr: u64)
    requires
        disconnect_done(v, w, addr),
    ensures
        !w.connected().contains(addr),
        forall|s: Seq<char>| #[trigger] w.registered.contains_key(s) ==> w.registered[s] != addr,
        forall|r: Seq<char>| #[trigger] w.pending.contains_key(r) ==> w.pending[r].caller != addr && !v.served_by(r, addr),
        forall|r: Seq<char>| #[trigger] w.pending.contains_key(r) ==> v.pending.contains_key(r) && w.pending[r] == v.pending[r],
{
    assert forall|s: Seq<char>| #[trigger] w.registered.contains_key(s) implies w.registered[s] != addr by {
        assert(!v.services_of(addr).contains(s));
    }
    assert forall|r: Seq<char>| #[trigger] w.pending.contains_key(r) implies w.pending[r].caller != addr && !v.served_by(r, addr) by {
        assert(!v.dropped_by(addr).contains(r));
    }
}

/// A connection that opens and closes again without serving or calling
/// anything leaves the router as it was, and nobody is told of a failure.
pub proof fn lemma_connect_then_disconnect<S>(
    v: RouterView<S>,
    w: RouterView<S>,
    u: RouterView<S>,
    addr: u64,
    sender: S,
    connected: Result<(), RouterError>,
    notices: Seq<Result<Outgoing, RouterError>>,
)
    requires
        !v.connected().contains(addr),
        forall|s: Seq<char>| #[trigger] v.registered.contains_key(s) ==> v.registered[s] != addr,
        forall|r: Seq<char>| #[trigger] v.pending.contains_key(r) ==> v.pending[r].caller != addr,
        connect_done(v, w, addr, sender, connected),
        disconnect_done(w, u, addr),
        failure_notices(notices, w, addr),
    ensures
        connected is Ok,
        u.senders == v.senders,
        u.registered == v.registered,
        u.pending == v.pending,
        notices.len() == 0,
{
    assert(u.senders =~= v.senders);
    assert(w.services_of(addr) =~= Set::<Seq<char>>::empty());
    assert(u.registered =~= v.registered);
    assert(w.dropped_by(addr) =~= Set::<Seq<char>>::empty());
    assert(u.pending =~= v.pending);
    let rs = choose|rs: Seq<Seq<char>>|
        {
            &&& rs.no_duplicates()
            &&& rs.to_set() == w.failed_by(addr)
            &&& rs.len() == notices.len()
            &&& forall|j: int|
                0 <= j < rs.len() ==> sent_to(
                    #[trigger] notices[j],
                    w.connected().remove(addr),
                    w.pending[rs[j]].caller,
                    |m| is_call_reply(m, rs[j], SERVICE_FAILURE, disconnected_text()),
                )
        };
    assert(w.failed_by(addr) =~= Set::<Seq<char>>::empty());
    rs.unique_seq_to_set();
}

} // verus!
