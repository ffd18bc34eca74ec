use secure_chat_lib::clients::{check_messages, check_messages_bench, delays_from, send_message, update_clients, ClientUser};
use secure_chat_lib::network::{Message, MessageOptions};

fn msg(data: &str, to: &str, from: &str) -> Message {
    Message::new(data.to_string(), to.to_string(), from.to_string()).unwrap()
}

#[test]
fn update_clients_appends_incoming() {
    let mut clients = vec![ClientUser::connected("a".to_string(), "me".to_string())];
    update_clients(&mut clients, vec!["b".to_string(), "c".to_string()]);
    assert_eq!(clients.len(), 3);
    assert_eq!(clients[0].nickname, "me");
    assert_eq!(clients[1].addr, "b");
    assert_eq!(clients[2].addr, "c");
    assert_eq!(clients[2].nickname, "");
    assert!(clients[2].messages.is_empty());
}

#[test]
fn check_messages_files_by_sender() {
    let mut clients = vec![ClientUser::incoming("a".to_string()), ClientUser::incoming("b".to_string()),
        ClientUser::incoming("a".to_string())];
    let incoming = vec![msg("1", "me", "a"), msg("2", "me", "z"), msg("3", "me", "b")];
    let shown = check_messages(&mut clients, &incoming);
    assert_eq!(shown.len(), 3);
    assert_eq!(shown[0].data, "1");
    assert_eq!(shown[1].data, "1");
    assert_eq!(shown[2].data, "3");
    assert_eq!(clients[0].messages.len(), 1);
    assert_eq!(clients[0].messages[0].data, "1");
    assert_eq!(clients[1].messages.len(), 1);
    assert_eq!(clients[1].messages[0].data, "3");
    assert_eq!(clients[2].messages.len(), 1);
}

#[test]
fn send_message_to_known_peer() {
    let clients = vec![ClientUser::incoming("x:1".to_string())];
    let m = send_message(&clients, "x:1".to_string(), "hello".to_string()).unwrap();
    assert_eq!(m.sender, "ME");
    assert_eq!(m.recipient, "x:1");
    assert_eq!(m.data, "hello");
    assert_eq!(m.options, MessageOptions::Plain);
}

#[test]
fn send_message_to_unknown_peer() {
    let clients = vec![ClientUser::incoming("x:1".to_string())];
    assert!(send_message(&clients, "y:2".to_string(), "a text far longer than any message".to_string()).is_none());
}

#[test]
fn describe_client() {
    let c = ClientUser::connected("1.2.3.4:5".to_string(), "6.7.8.9:10".to_string());
    assert_eq!(c.describe(), "Client with address 1.2.3.4:5, and nickname 6.7.8.9:10");
}

#[test]
fn bench_measures_each_send_time() {
    let clients = vec![ClientUser::incoming("a".to_string()), ClientUser::incoming("b".to_string())];
    let incoming = vec![msg("1000", "me", "a"), msg("5 x 7 ", "me", "b"), msg("9", "me", "z")];
    let delays = check_messages_bench(&clients, &incoming);
    assert_eq!(delays.len(), 3);
    let now = chrono::Utc::now().timestamp_millis();
    let sent = [1000i64, 5, 7];
    for (d, s) in delays.iter().zip(sent.iter()) {
        let reading = d + s;
        assert!(reading > 0 && reading <= now);
    }
}

#[test]
fn delays_from_subtracts() {
    assert_eq!(delays_from(&vec![100, 50, 7], &vec![40, 50, -3]), vec![60, 0, 10]);
    assert_eq!(delays_from(&vec![], &vec![]), Vec::<i64>::new());
}

#[test]
fn bench_words_sample() {
    let clients = vec![ClientUser::incoming("a".to_string())];
    let incoming = vec![msg("1000 42 x", "me", "a")];
    let delays = check_messages_bench(&clients, &incoming);
    assert_eq!(delays.len(), 2);
    let now = chrono::Utc::now().timestamp_millis();
    assert!(delays[0] + 1000 <= now && delays[0] + 1000 > 0);
    assert!(delays[1] + 42 <= now && delays[1] + 42 > 0);
}
