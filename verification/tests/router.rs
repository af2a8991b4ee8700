use yagna::dispatcher::RouterError;
use yagna::gsb::{
    CallReply, CallRequest, GsbMessage, RegisterReply, RegisterRequest, UnregisterRequest, CALL_REPLY_BAD_REQUEST,
    NOT_REGISTERED, REGISTERED_OK, REGISTER_BAD_REQUEST, REGISTER_CONFLICT, REPLY_TYPE_FULL, REPLY_TYPE_PARTIAL,
    SERVICE_FAILURE, UNREGISTERED_OK,
};
use yagna::router::{is_valid_service_id, Outgoing, Router};

const SERVER: u64 = 1;
const CLIENT: u64 = 2;
const OTHER: u64 = 3;

fn connected(addrs: &[u64]) -> Router<&'static str> {
    let mut r = Router::new();
    for a in addrs {
        r.connect(*a, "sender").unwrap();
    }
    r
}

fn register(r: &mut Router<&'static str>, addr: u64, id: &str) -> Result<Outgoing, RouterError> {
    r.register_endpoint(addr, RegisterRequest { service_id: id.to_string() })
}

fn call_req(id: &str, address: &str) -> CallRequest {
    CallRequest {
        caller: "me".to_string(),
        address: address.to_string(),
        request_id: id.to_string(),
        data: vec![1, 2, 3],
    }
}

fn reply_msg(id: &str, reply_type: i32) -> CallReply {
    CallReply { request_id: id.to_string(), code: 0, reply_type, data: vec![9] }
}

fn register_reply(out: Outgoing) -> (u64, RegisterReply) {
    match out.msg {
        GsbMessage::RegisterReply(r) => (out.to, r),
        other => panic!("unexpected {:?}", other),
    }
}

fn call_reply(out: Outgoing) -> (u64, CallReply) {
    match out.msg {
        GsbMessage::CallReply(r) => (out.to, r),
        other => panic!("unexpected {:?}", other),
    }
}

#[test]
fn service_id_characters() {
    assert!(is_valid_service_id(&"/public/echo_1-a".to_string()));
    assert!(is_valid_service_id(&"".to_string()));
    assert!(!is_valid_service_id(&"has space".to_string()));
    assert!(!is_valid_service_id(&"dot.ted".to_string()));
    assert!(!is_valid_service_id(&"ünï".to_string()));
}

#[test]
fn register_succeeds_once() {
    let mut r = connected(&[SERVER, OTHER]);
    let (to, reply) = register_reply(register(&mut r, SERVER, "/svc").unwrap());
    assert_eq!(to, SERVER);
    assert_eq!(reply.code, REGISTERED_OK);
    assert_eq!(reply.message, "Service successfully registered");
    let (to, reply) = register_reply(register(&mut r, OTHER, "/svc").unwrap());
    assert_eq!(to, OTHER);
    assert_eq!(reply.code, REGISTER_CONFLICT);
    assert_eq!(reply.message, "Service ID already registered");
}

#[test]
fn register_refuses_illegal_id() {
    let mut r = connected(&[SERVER]);
    let (_, reply) = register_reply(register(&mut r, SERVER, "not valid!").unwrap());
    assert_eq!(reply.code, REGISTER_BAD_REQUEST);
    assert_eq!(reply.message, "Illegal service ID");
}

#[test]
fn register_from_unknown_connection_fails_to_answer() {
    let mut r = connected(&[OTHER]);
    assert!(matches!(register(&mut r, SERVER, "/svc"), Err(RouterError::SenderNotRegistered)));
    // The registration itself was recorded.
    let (_, reply) = register_reply(register(&mut r, OTHER, "/svc").unwrap());
    assert_eq!(reply.code, REGISTER_CONFLICT);
}

#[test]
fn unregister_only_by_owner() {
    let mut r = connected(&[SERVER, OTHER]);
    register(&mut r, SERVER, "/svc").unwrap();
    let out = r.unregister_endpoint(OTHER, UnregisterRequest { service_id: "/svc".to_string() }).unwrap();
    assert_eq!(out.to, OTHER);
    assert!(matches!(out.msg, GsbMessage::UnregisterReply(ref u) if u.code == NOT_REGISTERED));
    let out = r.unregister_endpoint(SERVER, UnregisterRequest { service_id: "/svc".to_string() }).unwrap();
    assert!(matches!(out.msg, GsbMessage::UnregisterReply(ref u) if u.code == UNREGISTERED_OK));
    let out = r.unregister_endpoint(SERVER, UnregisterRequest { service_id: "/svc".to_string() }).unwrap();
    assert!(matches!(out.msg, GsbMessage::UnregisterReply(ref u) if u.code == NOT_REGISTERED));
    // Free again: another server may take it.
    let (_, reply) = register_reply(register(&mut r, OTHER, "/svc").unwrap());
    assert_eq!(reply.code, REGISTERED_OK);
}

#[test]
fn call_to_unknown_service_is_refused() {
    let mut r = connected(&[CLIENT]);
    let (to, reply) = call_reply(r.call(CLIENT, call_req("r1", "/nothing")).unwrap());
    assert_eq!(to, CLIENT);
    assert_eq!(reply.request_id, "r1");
    assert_eq!(reply.code, CALL_REPLY_BAD_REQUEST);
    assert_eq!(reply.reply_type, REPLY_TYPE_FULL);
    assert_eq!(reply.data, b"No service registered under given address".to_vec());
}

#[test]
fn call_is_forwarded_and_duplicate_refused() {
    let mut r = connected(&[SERVER, CLIENT]);
    register(&mut r, SERVER, "/svc").unwrap();
    let out = r.call(CLIENT, call_req("r1", "/svc")).unwrap();
    assert_eq!(out.to, SERVER);
    assert_eq!(out.msg, GsbMessage::CallRequest(call_req("r1", "/svc")));
    let (to, reply) = call_reply(r.call(CLIENT, call_req("r1", "/svc")).unwrap());
    assert_eq!(to, CLIENT);
    assert_eq!(reply.code, CALL_REPLY_BAD_REQUEST);
    assert_eq!(reply.data, b"CallRequest with this ID already exists".to_vec());
}

#[test]
fn partial_replies_then_full_reply_end_the_call() {
    let mut r = connected(&[SERVER, CLIENT]);
    register(&mut r, SERVER, "/svc").unwrap();
    r.call(CLIENT, call_req("r1", "/svc")).unwrap();
    let out = r.reply(SERVER, reply_msg("r1", REPLY_TYPE_PARTIAL)).unwrap().unwrap();
    assert_eq!(out.to, CLIENT);
    assert_eq!(out.msg, GsbMessage::CallReply(reply_msg("r1", REPLY_TYPE_PARTIAL)));
    let out = r.reply(SERVER, reply_msg("r1", REPLY_TYPE_FULL)).unwrap().unwrap();
    assert_eq!(out.to, CLIENT);
    assert!(r.reply(SERVER, reply_msg("r1", REPLY_TYPE_FULL)).unwrap().is_none());
    // The request ID may be used again.
    let out = r.call(CLIENT, call_req("r1", "/svc")).unwrap();
    assert_eq!(out.to, SERVER);
}

#[test]
fn reply_to_unknown_call_is_dropped() {
    let mut r = connected(&[SERVER]);
    assert!(r.reply(SERVER, reply_msg("nope", REPLY_TYPE_FULL)).unwrap().is_none());
}

#[test]
fn connect_twice_is_refused() {
    let mut r = connected(&[SERVER]);
    assert!(matches!(r.connect(SERVER, "again"), Err(RouterError::SenderAlreadyRegistered)));
    assert_eq!(r.sender(SERVER), Some(&"sender"));
    assert_eq!(r.sender(OTHER), None);
}

#[test]
fn disconnect_unknown_is_refused() {
    let mut r: Router<&'static str> = Router::new();
    assert!(matches!(r.disconnect(SERVER), Err(RouterError::SenderNotRegistered)));
}

#[test]
fn server_disconnect_fails_pending_calls() {
    let mut r = connected(&[SERVER, CLIENT, OTHER]);
    register(&mut r, SERVER, "/a").unwrap();
    register(&mut r, SERVER, "/b").unwrap();
    register(&mut r, OTHER, "/c").unwrap();
    r.call(CLIENT, call_req("r1", "/a")).unwrap();
    r.call(CLIENT, call_req("r2", "/b")).unwrap();
    r.call(CLIENT, call_req("r3", "/c")).unwrap();
    let notices = r.disconnect(SERVER).unwrap();
    assert_eq!(notices.len(), 2);
    let mut ids: Vec<String> = Vec::new();
    for n in notices {
        let (to, reply) = call_reply(n.unwrap());
        assert_eq!(to, CLIENT);
        assert_eq!(reply.code, SERVICE_FAILURE);
        assert_eq!(reply.reply_type, REPLY_TYPE_FULL);
        assert_eq!(reply.data, b"Service disconnected".to_vec());
        ids.push(reply.request_id);
    }
    ids.sort();
    assert_eq!(ids, vec!["r1".to_string(), "r2".to_string()]);
    assert!(r.sender(SERVER).is_none());
    // Its services are free, the other server's call is still pending.
    let (_, reply) = register_reply(register(&mut r, OTHER, "/a").unwrap());
    assert_eq!(reply.code, REGISTERED_OK);
    assert!(r.reply(OTHER, reply_msg("r3", REPLY_TYPE_FULL)).unwrap().is_some());
    assert!(r.reply(SERVER, reply_msg("r1", REPLY_TYPE_FULL)).unwrap().is_none());
}

#[test]
fn client_disconnect_drops_its_calls() {
    let mut r = connected(&[SERVER, CLIENT]);
    register(&mut r, SERVER, "/a").unwrap();
    r.call(CLIENT, call_req("r1", "/a")).unwrap();
    let notices = r.disconnect(CLIENT).unwrap();
    assert!(notices.is_empty());
    assert!(r.reply(SERVER, reply_msg("r1", REPLY_TYPE_FULL)).unwrap().is_none());
}

#[test]
fn self_call_notice_cannot_be_sent() {
    let mut r = connected(&[SERVER]);
    register(&mut r, SERVER, "/a").unwrap();
    r.call(SERVER, call_req("r1", "/a")).unwrap();
    let notices = r.disconnect(SERVER).unwrap();
    assert_eq!(notices.len(), 1);
    assert!(matches!(notices[0], Err(RouterError::SenderNotRegistered)));
}

#[test]
fn handle_message_dispatches() {
    let mut r = connected(&[SERVER, CLIENT]);
    let out = r
        .handle_message(SERVER, GsbMessage::RegisterRequest(RegisterRequest { service_id: "/a".to_string() }))
        .unwrap()
        .unwrap();
    assert_eq!(register_reply(out).1.code, REGISTERED_OK);
    let out = r.handle_message(CLIENT, GsbMessage::CallRequest(call_req("r1", "/a"))).unwrap().unwrap();
    assert_eq!(out.to, SERVER);
    let out = r.handle_message(SERVER, GsbMessage::CallReply(reply_msg("r1", REPLY_TYPE_FULL))).unwrap().unwrap();
    assert_eq!(out.to, CLIENT);
    let out = r
        .handle_message(SERVER, GsbMessage::UnregisterRequest(UnregisterRequest { service_id: "/a".to_string() }))
        .unwrap()
        .unwrap();
    assert!(matches!(out.msg, GsbMessage::UnregisterReply(ref u) if u.code == UNREGISTERED_OK));
    let stray = GsbMessage::RegisterReply(RegisterReply { code: 0, message: String::new() });
    match r.handle_message(CLIENT, stray.clone()) {
        Err(RouterError::UnexpectedMessage(m)) => assert_eq!(m, stray),
        other => panic!("unexpected {:?}", other),
    }
}

#[test]
fn error_descriptions() {
    assert_eq!(RouterError::SenderAlreadyRegistered.describe(), "Sender already registered");
    assert_eq!(RouterError::SenderNotRegistered.describe(), "Sender not registered");
    assert_eq!(RouterError::AddressNotFound.describe(), "Address not found");
    assert_eq!(RouterError::ServiceNotFound.describe(), "Service not found");
    assert_eq!(RouterError::ClientNotFound.describe(), "Client not found");
}
