use secure_chat_lib::client_io::ClientIo;
use secure_chat_lib::framing::{drain_frames, encode_frame, receive_frames, take_messages_for, ReceiveEnd};
use secure_chat_lib::network::{Message, MessageOptions};

fn msg(data: &str, to: &str, from: &str) -> Message {
    Message::new(data.to_string(), to.to_string(), from.to_string()).unwrap()
}

#[test]
fn encode_frame_prefixes_big_endian_length() {
    assert_eq!(encode_frame("hi"), vec![0u8, 2, b'h', b'i']);
    assert_eq!(encode_frame(""), vec![0u8, 0]);
    let long = "a".repeat(300);
    let frame = encode_frame(&long);
    assert_eq!(frame[0], 1);
    assert_eq!(frame[1], 44);
    assert_eq!(frame.len(), 302);
}

#[test]
fn encode_frame_counts_utf8_bytes() {
    assert_eq!(encode_frame("é"), vec![0u8, 2, 0xc3, 0xa9]);
}

#[test]
fn encode_frame_wraps_length_past_u16() {
    let long = "b".repeat(65536 + 3);
    let frame = encode_frame(&long);
    assert_eq!(frame[0], 0);
    assert_eq!(frame[1], 3);
    assert_eq!(frame.len(), 65536 + 3 + 2);
}

#[test]
fn frame_followed_by_more_is_taken() {
    let mut buf = encode_frame("abc");
    buf.extend_from_slice(&[9, 9, 9]);
    let payloads = drain_frames(&mut buf);
    assert_eq!(payloads, vec![b"abc".to_vec()]);
    assert_eq!(buf, vec![9, 9, 9]);
}

#[test]
fn lone_frame_is_not_taken() {
    let mut buf = encode_frame("abc");
    let payloads = drain_frames(&mut buf);
    assert!(payloads.is_empty());
    assert_eq!(buf, encode_frame("abc"));
}

#[test]
fn short_buffer_waits() {
    let mut buf = vec![0u8, 5];
    let payloads = drain_frames(&mut buf);
    assert!(payloads.is_empty());
    assert_eq!(buf, vec![0u8, 5]);
}

#[test]
fn several_frames_come_back_in_order() {
    let mut buf = encode_frame("one");
    buf.extend(encode_frame("two"));
    buf.extend(encode_frame("three"));
    buf.extend_from_slice(&[0, 0, 0]);
    let payloads = drain_frames(&mut buf);
    assert_eq!(payloads, vec![b"one".to_vec(), b"two".to_vec(), b"three".to_vec()]);
    assert_eq!(buf, vec![0, 0, 0]);
}

#[test]
fn receive_frames_builds_messages() {
    let mut buf = encode_frame("hello");
    buf.extend(encode_frame("x"));
    let local = "127.0.0.1:1".to_string();
    let peer = "127.0.0.1:2".to_string();
    let (msgs, end) = receive_frames(&mut buf, &local, &peer);
    assert_eq!(msgs.len(), 1);
    assert_eq!(msgs[0].data, "hello");
    assert_eq!(msgs[0].sender, peer);
    assert_eq!(msgs[0].recipient, local);
    assert_eq!(msgs[0].options, MessageOptions::Plain);
    assert_eq!(end, ReceiveEnd::Spins);
    assert_eq!(buf, encode_frame("x"));
}

#[test]
fn receive_frames_drained() {
    let mut buf = vec![0u8, 9];
    let (msgs, end) = receive_frames(&mut buf, &"l".to_string(), &"p".to_string());
    assert!(msgs.is_empty());
    assert_eq!(end, ReceiveEnd::Drained);
    assert_eq!(buf, vec![0u8, 9]);
}

#[test]
fn receive_frames_spins_after_any_frame() {
    let mut buf = encode_frame("hey");
    buf.extend_from_slice(&[0, 1, 7]);
    buf.extend_from_slice(&[9, 9, 9]);
    let (msgs, end) = receive_frames(&mut buf, &"l".to_string(), &"p".to_string());
    assert_eq!(msgs.len(), 2);
    assert_eq!(msgs[1].data, "\u{7}");
    assert_eq!(end, ReceiveEnd::Spins);
    assert_eq!(buf, vec![9, 9, 9]);
}

#[test]
fn receive_frames_invalid_text() {
    let mut buf = vec![0u8, 2, 0xff, 0xfe, 0, 0, 0];
    let (msgs, end) = receive_frames(&mut buf, &"l".to_string(), &"p".to_string());
    assert!(msgs.is_empty());
    assert_eq!(end, ReceiveEnd::InvalidText);
}

#[test]
fn receive_frames_oversized() {
    let mut buf = encode_frame("ok");
    buf.extend(encode_frame("this text is far too long"));
    buf.extend_from_slice(&[0, 0, 0]);
    let (msgs, end) = receive_frames(&mut buf, &"l".to_string(), &"p".to_string());
    assert_eq!(msgs.len(), 1);
    assert_eq!(msgs[0].data, "ok");
    assert_eq!(end, ReceiveEnd::Oversized);
}

#[test]
fn take_messages_for_partitions() {
    let mut msgs = vec![msg("a", "x", "me"), msg("b", "y", "me"), msg("c", "x", "me")];
    let frames = take_messages_for(&mut msgs, &"x".to_string());
    assert_eq!(frames, vec![encode_frame("a"), encode_frame("c")]);
    assert_eq!(msgs.len(), 1);
    assert_eq!(msgs[0].data, "b");
    let none = take_messages_for(&mut msgs, &"z".to_string());
    assert!(none.is_empty());
    assert_eq!(msgs.len(), 1);
}

#[test]
fn client_io_tokens_follow_count() {
    let mut io = ClientIo::new();
    assert_eq!(io.add_client("a".to_string()), 0);
    assert_eq!(io.add_client("b".to_string()), 1);
    assert_eq!(io.client_count(), 2);
    io.remove_client(0);
    assert_eq!(io.client_count(), 1);
    assert_eq!(io.addr_of(0), None);
    // the next connection takes the token of one still open
    assert_eq!(io.add_client("c".to_string()), 1);
    assert_eq!(io.addr_of(1), Some("c".to_string()));
    assert_eq!(io.client_count(), 2);
}

#[test]
fn client_io_receive_keeps_partial_frames() {
    let mut io = ClientIo::new();
    let t = io.add_client("peer".to_string());
    let local = "me".to_string();
    let frame = encode_frame("hi");
    let (m1, e1) = io.receive(t, &frame[0..1], &local);
    assert!(m1.is_empty());
    assert_eq!(e1, ReceiveEnd::Drained);
    let mut rest = frame[1..].to_vec();
    rest.extend_from_slice(&[0, 0, 0]);
    let (m2, e2) = io.receive(t, &rest, &local);
    assert_eq!(m2.len(), 1);
    assert_eq!(m2[0].data, "hi");
    assert_eq!(m2[0].sender, "peer");
    assert_eq!(m2[0].recipient, "me");
    assert_eq!(e2, ReceiveEnd::Spins);
}
