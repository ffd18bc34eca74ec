use secure_chat_lib::network::{Message, MessageOptions};

#[test]
fn new_message_fields() {
    let m = Message::new("data".to_string(), "to".to_string(), "from".to_string()).unwrap();
    assert_eq!(m.data, "data");
    assert_eq!(m.recipient, "to");
    assert_eq!(m.sender, "from");
    assert_eq!(m.options, MessageOptions::Plain);
}

#[test]
fn new_message_at_limit() {
    let m = Message::new("0123456789abcdef".to_string(), "r".to_string(), "s".to_string());
    assert!(m.is_ok());
}

#[test]
fn shutdown_message_is_empty() {
    let m = Message::shutdown();
    assert_eq!(m.data, "");
    assert_eq!(m.sender, "");
    assert_eq!(m.recipient, "");
    assert_eq!(m.options, MessageOptions::Shutdown);
}

#[test]
fn describe_message() {
    let m = Message::new("hi".to_string(), "b".to_string(), "a".to_string()).unwrap();
    assert_eq!(m.describe(), "Message from: a    To: b    Contents: hi");
}

#[test]
fn clone_message_keeps_fields() {
    let m = Message::new("hi".to_string(), "b".to_string(), "a".to_string()).unwrap();
    let c = m.clone();
    assert_eq!(c.data, m.data);
    assert_eq!(c.sender, m.sender);
    assert_eq!(c.recipient, m.recipient);
    assert_eq!(c.options, m.options);
}
