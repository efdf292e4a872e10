use kernel::generic_arena::Handle;
use kernel::ipc::{EndpointRegistry, IpcError, Message, RecvOutcome};
use kernel::task::TaskHandle;

fn task(id: u8) -> TaskHandle {
    Handle::new(id, 0u8)
}

fn msg(tag: u64) -> Message {
    Message::new(tag)
}

#[test]
fn create_registers_endpoint() {
    let mut reg = EndpointRegistry::new();
    assert!(reg.create(1).is_ok());
}

#[test]
fn create_duplicate_returns_error() {
    let mut reg = EndpointRegistry::new();
    reg.create(1).unwrap();
    assert_eq!(reg.create(1), Err(IpcError::EndpointAlreadyExists));
}

#[test]
fn recv_on_unknown_endpoint_returns_error() {
    let mut reg = EndpointRegistry::new();
    assert_eq!(reg.recv(99, task(0)), Err(IpcError::EndpointNotFound));
}

#[test]
fn send_on_unknown_endpoint_returns_error() {
    let mut reg = EndpointRegistry::new();
    assert_eq!(reg.send(99, task(0), msg(0)), Err(IpcError::EndpointNotFound));
}

#[test]
fn recv_on_idle_endpoint_blocks_server() {
    let mut reg = EndpointRegistry::new();
    reg.create(1).unwrap();
    let outcome = reg.recv(1, task(0)).unwrap();
    assert!(matches!(outcome, RecvOutcome::ServerBlocked));
}

#[test]
fn send_with_no_server_queues_client() {
    let mut reg = EndpointRegistry::new();
    reg.create(1).unwrap();
    assert!(reg.send(1, task(0), msg(0)).is_ok());
}

#[test]
fn send_with_waiting_server_puts_message_in_server_inbox() {
    let mut reg = EndpointRegistry::new();
    reg.create(1).unwrap();
    reg.recv(1, task(10)).unwrap();
    reg.send(1, task(20), msg(42)).unwrap();
    assert!(reg.has_server_delivery(task(10)));
    let (_, delivered_msg) = reg.take_server_delivery(task(10)).unwrap();
    assert_eq!(delivered_msg.tag, 42);
}

#[test]
fn recv_with_waiting_client_delivers_message_directly() {
    let mut reg = EndpointRegistry::new();
    reg.create(1).unwrap();
    reg.send(1, task(20), msg(42)).unwrap();
    let outcome = reg.recv(1, task(10)).unwrap();
    assert!(matches!(outcome, RecvOutcome::ServerHasMessage(_, m) if m.tag == 42));
}

#[test]
fn reply_puts_message_in_client_inbox() {
    let mut reg = EndpointRegistry::new();
    reg.create(1).unwrap();
    reg.send(1, task(20), msg(0)).unwrap();
    let RecvOutcome::ServerHasMessage(token, _) = reg.recv(1, task(10)).unwrap() else { panic!() };
    reg.reply(token, msg(7));
    assert!(reg.has_client_reply(task(20)));
    let reply = reg.take_client_reply(task(20)).unwrap();
    assert_eq!(reply.tag, 7);
}

#[test]
fn endpoint_returns_to_idle_after_full_exchange() {
    let mut reg = EndpointRegistry::new();
    reg.create(1).unwrap();
    reg.send(1, task(20), msg(0)).unwrap();
    let RecvOutcome::ServerHasMessage(token, _) = reg.recv(1, task(10)).unwrap() else { panic!() };
    reg.reply(token, msg(0));
    let outcome = reg.recv(1, task(10)).unwrap();
    assert!(matches!(outcome, RecvOutcome::ServerBlocked));
}

#[test]
fn second_send_while_client_waiting_returns_busy() {
    let mut reg = EndpointRegistry::new();
    reg.create(1).unwrap();
    reg.send(1, task(20), msg(0)).unwrap();
    assert_eq!(reg.send(1, task(21), msg(0)), Err(IpcError::EndpointBusy));
}

#[test]
fn take_server_delivery_removes_it_from_inbox() {
    let mut reg = EndpointRegistry::new();
    reg.create(1).unwrap();
    reg.recv(1, task(10)).unwrap();
    reg.send(1, task(20), msg(0)).unwrap();
    reg.take_server_delivery(task(10));
    assert!(!reg.has_server_delivery(task(10)));
}

#[test]
fn take_client_reply_removes_it_from_inbox() {
    let mut reg = EndpointRegistry::new();
    reg.create(1).unwrap();
    reg.send(1, task(20), msg(0)).unwrap();
    let RecvOutcome::ServerHasMessage(token, _) = reg.recv(1, task(10)).unwrap() else { panic!() };
    reg.reply(token, msg(0));
    reg.take_client_reply(task(20));
    assert!(!reg.has_client_reply(task(20)));
}

#[test]
fn server_inbox_empty_when_no_delivery() {
    let reg = EndpointRegistry::new();
    assert!(!reg.has_server_delivery(task(10)));
}

#[test]
fn client_inbox_empty_when_no_reply() {
    let reg = EndpointRegistry::new();
    assert!(!reg.has_client_reply(task(20)));
}

#[test]
fn reply_token_names_the_client() {
    let mut reg = EndpointRegistry::new();
    reg.create(3).unwrap();
    reg.send(3, task(5), msg(1).with_word(2, 99)).unwrap();
    match reg.recv(3, task(6)).unwrap() {
        RecvOutcome::ServerHasMessage(token, m) => {
            assert_eq!(token.0, task(5));
            assert_eq!(m.words, [0, 0, 99, 0]);
        }
        RecvOutcome::ServerBlocked => panic!("expected a message"),
    }
    // While the client waits for its reply, the endpoint is busy.
    assert_eq!(reg.send(3, task(7), msg(0)), Err(IpcError::EndpointBusy));
}

#[test]
fn second_server_on_waiting_endpoint_is_busy() {
    let mut reg = EndpointRegistry::new();
    reg.create(1).unwrap();
    assert!(matches!(reg.recv(1, task(1)).unwrap(), RecvOutcome::ServerBlocked));
    assert_eq!(reg.recv(1, task(2)), Err(IpcError::EndpointBusy));
}
