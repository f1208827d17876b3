use http_sockets::chat::{broadcast_command, stamp_username, ChatMessage};
use http_sockets::sessions::{WebSocketCommands, WebSockets};
use tokio::sync::mpsc::unbounded_channel;

#[test]
fn add_remove_and_recipients() {
    let mut s = WebSockets::new();
    let (a, _ra) = unbounded_channel::<Vec<u8>>();
    let (b, _rb) = unbounded_channel::<Vec<u8>>();
    s.add_session(1, a);
    s.add_session(2, b);
    let mut all = s.recipients(None);
    all.sort();
    assert_eq!(all, vec![1, 2]);
    assert_eq!(s.recipients(Some(1)), vec![2]);
    assert_eq!(s.recipients(Some(3)).len(), 2);
    s.remove_session(1);
    assert_eq!(s.recipients(None), vec![2]);
    s.remove_session(2);
    assert!(s.recipients(None).is_empty());
}

#[test]
fn broadcast_reaches_every_session() {
    let mut s = WebSockets::default();
    let (a, mut ra) = unbounded_channel::<Vec<u8>>();
    let (b, mut rb) = unbounded_channel::<Vec<u8>>();
    s.add_session(10, a);
    s.add_session(20, b);
    s.broadcast(vec![1, 2, 3]);
    assert_eq!(ra.try_recv().unwrap(), vec![1, 2, 3]);
    assert_eq!(rb.try_recv().unwrap(), vec![1, 2, 3]);
    assert!(ra.try_recv().is_err());
}

#[test]
fn broadcast_except_skips_the_sender() {
    let mut s = WebSockets::new();
    let (a, mut ra) = unbounded_channel::<Vec<u8>>();
    let (b, mut rb) = unbounded_channel::<Vec<u8>>();
    s.add_session(10, a);
    s.add_session(20, b);
    s.broadcast_except(10, vec![9]);
    assert!(ra.try_recv().is_err());
    assert_eq!(rb.try_recv().unwrap(), vec![9]);
}

#[test]
fn commands_drive_the_registry() {
    let mut s = WebSockets::new();
    let (a, mut ra) = unbounded_channel::<Vec<u8>>();
    s.handle_command(WebSocketCommands::WebSocketAddConn(5, a));
    s.handle_command(WebSocketCommands::WebSocketBroadcast(vec![4]));
    assert_eq!(ra.try_recv().unwrap(), vec![4]);
    s.handle_command(WebSocketCommands::WebSocketBroadcastExcept(5, vec![5]));
    assert!(ra.try_recv().is_err());
    s.handle_command(WebSocketCommands::WebSocketRemoveConn(5));
    assert!(s.recipients(None).is_empty());
}

#[test]
fn re_adding_replaces_the_session() {
    let mut s = WebSockets::new();
    let (a, mut ra) = unbounded_channel::<Vec<u8>>();
    let (b, mut rb) = unbounded_channel::<Vec<u8>>();
    s.add_session(1, a);
    s.add_session(1, b);
    assert_eq!(s.recipients(None), vec![1]);
    s.broadcast(vec![7]);
    assert!(ra.try_recv().is_err());
    assert_eq!(rb.try_recv().unwrap(), vec![7]);
}

#[test]
fn broadcast_command_packs_a_frame() {
    match broadcast_command(b"{}") {
        WebSocketCommands::WebSocketBroadcast(frame) => assert_eq!(frame, vec![129u8, 2, b'{', b'}']),
        _ => panic!("not a broadcast"),
    }
}

#[test]
fn stamp_sets_the_user_name() {
    let m = ChatMessage { comment: "hi".to_string(), username: 0, message_type: "chat".to_string() };
    let m = stamp_username(m, 77);
    assert_eq!(m.username, 77);
    assert_eq!(m.comment, "hi");
    assert_eq!(m.message_type, "chat");
}
