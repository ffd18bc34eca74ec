use secure_chat_lib::network::Message;
use secure_chat_lib::worker::{NetworkWorker, Route, MAX_CLIENTS_THREAD};

#[test]
fn first_connections_share_the_first_worker() {
    let mut w = NetworkWorker::new();
    for i in 0..MAX_CLIENTS_THREAD {
        assert!(!w.add_client(format!("peer{}", i)));
    }
    assert_eq!(w.connection_count(), 20);
    assert_eq!(w.thread_count(), 0);
    let m = Message::new("x".to_string(), "peer3".to_string(), "ME".to_string()).unwrap();
    assert_eq!(w.route(&m), Route::Worker(0));
}

#[test]
fn every_later_connection_starts_a_worker() {
    let mut w = NetworkWorker::new();
    for i in 0..20 {
        w.add_client(format!("peer{}", i));
    }
    assert!(w.add_client("late1".to_string()));
    assert!(w.add_client("late2".to_string()));
    assert_eq!(w.thread_count(), 2);
    assert_eq!(w.connection_count(), 22);
    let m1 = Message::new("x".to_string(), "late1".to_string(), "ME".to_string()).unwrap();
    let m2 = Message::new("x".to_string(), "late2".to_string(), "ME".to_string()).unwrap();
    assert_eq!(w.route(&m1), Route::Worker(1));
    assert_eq!(w.route(&m2), Route::Worker(2));
}

#[test]
fn reconnecting_address_moves_to_newest_worker() {
    let mut w = NetworkWorker::new();
    for i in 0..21 {
        w.add_client(format!("peer{}", i));
    }
    w.add_client("peer0".to_string());
    let m = Message::new("x".to_string(), "peer0".to_string(), "ME".to_string()).unwrap();
    assert_eq!(w.route(&m), Route::Worker(2));
}

#[test]
fn route_shutdown_and_unknown() {
    let mut w = NetworkWorker::new();
    w.add_client("a".to_string());
    assert_eq!(w.route(&Message::shutdown()), Route::Shutdown);
    let m = Message::new("x".to_string(), "nobody".to_string(), "ME".to_string()).unwrap();
    assert_eq!(w.route(&m), Route::UnknownRecipient);
}

#[test]
fn route_batch_stops_at_shutdown() {
    let mut w = NetworkWorker::new();
    w.add_client("a".to_string());
    let batch = vec![
        Message::new("1".to_string(), "a".to_string(), "ME".to_string()).unwrap(),
        Message::shutdown(),
        Message::new("2".to_string(), "a".to_string(), "ME".to_string()).unwrap(),
    ];
    let (forwarded, stop) = w.route_batch(&batch);
    assert_eq!(forwarded.len(), 1);
    assert_eq!(forwarded[0].0, 0);
    assert_eq!(forwarded[0].1.data, "1");
    assert_eq!(stop, Some(Route::Shutdown));
}

#[test]
fn route_batch_all_forwarded_or_unknown() {
    let mut w = NetworkWorker::new();
    w.add_client("a".to_string());
    let ok = vec![Message::new("1".to_string(), "a".to_string(), "ME".to_string()).unwrap()];
    let (forwarded, stop) = w.route_batch(&ok);
    assert_eq!(forwarded.len(), 1);
    assert_eq!(stop, None);
    let bad = vec![Message::new("1".to_string(), "b".to_string(), "ME".to_string()).unwrap()];
    let (forwarded, stop) = w.route_batch(&bad);
    assert!(forwarded.is_empty());
    assert_eq!(stop, Some(Route::UnknownRecipient));
}

#[test]
fn first_worker_gets_twenty_then_one_each() {
    let mut w = NetworkWorker::new();
    let mut per_worker = vec![0u32; 6];
    for i in 0..25 {
        let addr = format!("p{}", i);
        w.add_client(addr.clone());
        let m = Message::new("x".to_string(), addr, "ME".to_string()).unwrap();
        if let Route::Worker(k) = w.route(&m) {
            per_worker[k as usize] += 1;
        }
    }
    assert_eq!(per_worker, vec![20, 1, 1, 1, 1, 1]);
}
