use codex_mcp_server::outgoing_message::{
    OutgoingError, OutgoingMessage, OutgoingNotification, OutgoingRequest, OutgoingResponse,
    RequestId,
};
use codex_mcp_server::server_info::{
    get_info, Implementation, ServerCapabilities, ServerInfo, ToolsCapability,
};
use codex_mcp_server::session_runtime::{BridgeAction, NotificationRoute, Resolution};
use codex_mcp_server::SessionRuntime;
use rmcp::model::ErrorData;
use serde_json::Value;
use tokio::sync::oneshot;

type PendingResponse = Result<Value, ErrorData>;
type Session = SessionRuntime<oneshot::Sender<PendingResponse>, &'static str>;
type Message = OutgoingMessage<Value, ErrorData>;

struct Reserved {
    id: RequestId,
    receiver: oneshot::Receiver<PendingResponse>,
}

fn reserve(session: &mut Session) -> Reserved {
    let (sender, receiver) = oneshot::channel();
    Reserved { id: session.reserve_pending_response(sender), receiver }
}

/// Does what the session says, and tells whether somebody was answered.
fn send_outgoing_message(session: &mut Session, message: Message) -> bool {
    match session.bridge_outgoing_message(message) {
        BridgeAction::Resolve(Resolution::Deliver { waiter, response, .. }) => {
            waiter.send(response).is_ok()
        }
        _ => false,
    }
}

fn json(text: &str) -> Value {
    serde_json::from_str(text).expect("valid JSON")
}

fn response(id: &RequestId, text: &str) -> Message {
    OutgoingMessage::Response(OutgoingResponse { id: id.clone(), result: json(text) })
}

#[test]
fn session_runtime_uses_per_session_synthetic_request_ids() {
    let mut runtime_one = Session::new();
    let mut runtime_two = Session::new();

    let pending_one = reserve(&mut runtime_one);
    let pending_two = reserve(&mut runtime_two);
    let pending_three = reserve(&mut runtime_one);

    assert_eq!(pending_one.id, RequestId::Number(0));
    assert_eq!(pending_two.id, RequestId::Number(0));
    assert_eq!(pending_three.id, RequestId::Number(1));
    assert_eq!(runtime_one.pending_request_count(), 2);
    assert_eq!(runtime_two.pending_request_count(), 1);

    drop(pending_one.receiver);
    drop(pending_two.receiver);
    drop(pending_three.receiver);
}

#[test]
fn session_runtime_routes_response_and_error_to_matching_pending_waiters() {
    let mut runtime = Session::new();

    let mut pending_response = reserve(&mut runtime);
    let mut pending_error = reserve(&mut runtime);

    send_outgoing_message(
        &mut runtime,
        OutgoingMessage::Response(OutgoingResponse {
            id: pending_response.id.clone(),
            result: json("{ \"ok\": true }"),
        }),
    );
    send_outgoing_message(
        &mut runtime,
        OutgoingMessage::Error(OutgoingError {
            id: pending_error.id.clone(),
            error: ErrorData::invalid_request("bad request", None),
        }),
    );

    let response = pending_response.receiver.try_recv().expect("answered");
    let error = pending_error.receiver.try_recv().expect("answered");

    assert_eq!(response, Ok(json("{ \"ok\": true }")));
    assert_eq!(error, Err(ErrorData::invalid_request("bad request", None)));
    assert_eq!(runtime.pending_request_ids(), Vec::<RequestId>::new());
}

#[test]
fn an_answer_in_one_session_leaves_the_other_waiting() {
    let mut runtime_one = Session::new();
    let mut runtime_two = Session::new();

    let mut pending_one = reserve(&mut runtime_one);
    let mut pending_two = reserve(&mut runtime_two);

    assert!(send_outgoing_message(&mut runtime_one, response(&pending_one.id, "[1, 2, 3]")));

    assert_eq!(pending_one.receiver.try_recv().expect("answered"), Ok(json("[1, 2, 3]")));
    assert_eq!(runtime_one.pending_request_ids(), Vec::<RequestId>::new());
    assert_eq!(runtime_two.pending_request_ids(), vec![RequestId::Number(0)]);
    assert!(pending_two.receiver.try_recv().is_err(), "second session should remain pending");
}

#[test]
fn nobody_is_answered_twice() {
    let mut runtime = Session::new();
    let mut pending = reserve(&mut runtime);
    assert!(send_outgoing_message(&mut runtime, response(&pending.id, "1")));
    assert!(!send_outgoing_message(&mut runtime, response(&pending.id, "2")));
    assert_eq!(pending.receiver.try_recv().expect("answered"), Ok(json("1")));
}

#[test]
fn answers_may_come_in_any_order() {
    let mut runtime = Session::new();
    let mut first = reserve(&mut runtime);
    let mut second = reserve(&mut runtime);
    assert!(send_outgoing_message(&mut runtime, response(&second.id, "2")));
    let third = reserve(&mut runtime);
    assert_eq!(third.id, RequestId::Number(2));
    assert!(send_outgoing_message(&mut runtime, response(&first.id, "1")));
    assert_eq!(first.receiver.try_recv().expect("answered"), Ok(json("1")));
    assert_eq!(second.receiver.try_recv().expect("answered"), Ok(json("2")));
    assert_eq!(runtime.pending_request_ids(), vec![RequestId::Number(2)]);
}

#[test]
fn unknown_answers_are_dropped() {
    let mut runtime = Session::new();
    let _pending = reserve(&mut runtime);
    for id in [
        RequestId::Number(1),
        RequestId::Number(-1),
        RequestId::String("0".to_string()),
        RequestId::String(String::new()),
    ] {
        match runtime.bridge_outgoing_message(response(&id, "null")) {
            BridgeAction::Resolve(Resolution::Unknown { id: dropped }) => assert_eq!(dropped, id),
            _ => panic!("expected the answer to be dropped"),
        }
    }
    assert_eq!(runtime.pending_request_ids(), vec![RequestId::Number(0)]);
}

#[test]
fn pending_ids_are_listed_in_the_order_of_their_texts() {
    let mut runtime = Session::new();
    let reserved: Vec<Reserved> = (0..12).map(|_| reserve(&mut runtime)).collect();
    let expected: Vec<RequestId> =
        [0, 1, 10, 11, 2, 3, 4, 5, 6, 7, 8, 9].into_iter().map(RequestId::Number).collect();
    assert_eq!(runtime.pending_request_ids(), expected);
    assert_eq!(runtime.pending_request_count(), reserved.len());
}

#[test]
fn ids_are_written_in_decimal_or_as_they_are() {
    assert_eq!(RequestId::Number(0).to_string(), "0");
    assert_eq!(RequestId::Number(-7).to_string(), "-7");
    assert_eq!(RequestId::Number(i64::MIN).to_string(), "-9223372036854775808");
    assert_eq!(RequestId::Number(i64::MAX).to_string(), "9223372036854775807");
    assert_eq!(RequestId::String("a b".to_string()).to_string(), "a b");
}

#[test]
fn notifications_go_to_the_peer_of_the_last_handshake() {
    let mut runtime = Session::new();
    let notification = || OutgoingNotification {
        method: "codex/event".to_string(),
        params: Some(json("{ \"id\": \"event-1\", \"msg\": { \"type\": \"agent_message\" } }")),
    };

    match runtime.bridge_outgoing_message(Message::Notification(notification())) {
        BridgeAction::Notify(NotificationRoute::NoPeer { method }) => {
            assert_eq!(method, "codex/event")
        }
        _ => panic!("expected the notification to be dropped"),
    }

    runtime.initialize("first", false);
    runtime.initialize("second", true);
    match runtime.bridge_outgoing_message(Message::Notification(notification())) {
        BridgeAction::Notify(NotificationRoute::Forward { peer, method, params }) => {
            assert_eq!(peer, "second");
            assert_eq!(method, "codex/event");
            assert_eq!(params, notification().params);
        }
        _ => panic!("expected the notification to be forwarded"),
    }
}

#[test]
fn requests_go_to_the_peer_of_the_last_handshake() {
    let mut runtime = Session::new();
    let pending = reserve(&mut runtime);
    let request = || OutgoingRequest {
        id: pending.id.clone(),
        method: "elicitation/create".to_string(),
        params: Some(json("{ \"message\": \"Allow Codex to run `git init`?\" }")),
    };

    match runtime.bridge_outgoing_message(Message::Request(request())) {
        BridgeAction::DropRequest { method } => assert_eq!(method, "elicitation/create"),
        _ => panic!("expected the request to be dropped before the handshake"),
    }

    runtime.initialize("first", false);
    runtime.initialize("second", true);
    match runtime.bridge_outgoing_message(Message::Request(request())) {
        BridgeAction::ForwardRequest { peer, id, method, params } => {
            assert_eq!(peer, "second");
            assert_eq!(id, pending.id);
            assert_eq!(method, "elicitation/create");
            assert_eq!(params, request().params);
        }
        _ => panic!("expected the request to be forwarded"),
    }
    assert_eq!(runtime.pending_request_ids(), vec![RequestId::Number(0)]);
}

#[test]
fn the_handshake_answers_with_the_server_info() {
    let expected = ServerInfo {
        protocol_version: "2025-03-26".to_string(),
        capabilities: ServerCapabilities {
            tools: Some(ToolsCapability { list_changed: Some(true) }),
        },
        server_info: Implementation {
            name: "codex-mcp-server".to_string(),
            title: Some("Codex".to_string()),
            version: "0.0.0".to_string(),
            description: None,
            website_url: None,
        },
        instructions: None,
    };
    assert_eq!(get_info(), expected);

    let mut runtime = Session::new();
    let first = runtime.initialize("peer", false);
    assert!(first.record_peer_info);
    assert_eq!(first.info, expected);
    let second = runtime.initialize("peer", true);
    assert!(!second.record_peer_info);
    assert_eq!(second.info, expected);
}
