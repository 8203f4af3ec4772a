use message_queue_service::session::{
    step, Message, MessageType, Response, SessionAction, SessionEvent, SessionState,
};
use message_queue_service::store::MessageQueue;

fn request(msg_type: MessageType, queue: &str, msg: &str) -> SessionEvent {
    SessionEvent::Request(Message { msg_type, queue: queue.to_string(), msg: msg.to_string() })
}

fn read_all(store: &mut MessageQueue) -> Vec<(String, String)> {
    match step(store, SessionState::AwaitingFrame, request(MessageType::GetAllMessages, "", "")) {
        (SessionState::AwaitingFrame, SessionAction::Reply(Response::Messages(v))) => v,
        other => panic!("unexpected step result: {:?}", other),
    }
}

#[test]
fn handle_dispatches_each_request_type() {
    let mut store = MessageQueue::new();
    let m = Message {
        msg_type: MessageType::EnqueueTo,
        queue: "q".to_string(),
        msg: "\"hello\"".to_string(),
    };
    assert!(matches!(store.handle(m), Response::Accepted));
    let m = Message { msg_type: MessageType::EnqueueAny, queue: String::new(), msg: "2".to_string() };
    assert!(matches!(store.handle(m), Response::Accepted));
    let m = Message { msg_type: MessageType::GetAllMessages, queue: String::new(), msg: String::new() };
    match store.handle(m) {
        Response::Messages(v) => assert_eq!(
            v,
            vec![
                ("q".to_string(), "\"hello\"".to_string()),
                ("q".to_string(), "2".to_string())
            ]
        ),
        Response::Accepted => panic!("expected messages"),
    }
}

#[test]
fn request_on_open_connection_is_answered() {
    let mut store = MessageQueue::new();
    let (state, action) =
        step(&mut store, SessionState::AwaitingFrame, request(MessageType::EnqueueTo, "q", "1"));
    assert_eq!(state, SessionState::AwaitingFrame);
    assert!(matches!(action, SessionAction::Reply(Response::Accepted)));
    assert_eq!(read_all(&mut store), vec![("q".to_string(), "1".to_string())]);
}

#[test]
fn malformed_frame_closes_only_that_connection() {
    let mut store = MessageQueue::new();
    step(&mut store, SessionState::AwaitingFrame, request(MessageType::EnqueueTo, "a", "1"));
    let (state, action) = step(&mut store, SessionState::AwaitingFrame, SessionEvent::Malformed);
    assert_eq!(state, SessionState::Closed);
    assert!(matches!(action, SessionAction::Close));
    assert_eq!(read_all(&mut store), vec![("a".to_string(), "1".to_string())]);
}

#[test]
fn stream_end_and_write_failure_close() {
    let mut store = MessageQueue::new();
    for e in [SessionEvent::StreamEnded, SessionEvent::WriteFailed] {
        let (state, action) = step(&mut store, SessionState::AwaitingFrame, e);
        assert_eq!(state, SessionState::Closed);
        assert!(matches!(action, SessionAction::Close));
    }
    assert!(read_all(&mut store).is_empty());
}

#[test]
fn closed_connection_ignores_requests() {
    let mut store = MessageQueue::new();
    let (state, action) =
        step(&mut store, SessionState::Closed, request(MessageType::EnqueueTo, "q", "1"));
    assert_eq!(state, SessionState::Closed);
    assert!(matches!(action, SessionAction::Nothing));
    assert!(read_all(&mut store).is_empty());
}
