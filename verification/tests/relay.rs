use chat_relay::dispatcher::Dispatcher;
use chat_relay::event::Action;
use chat_relay::event::Addr;
use chat_relay::event::Event;
use chat_relay::reader::chunk_payload;
use chat_relay::reader::classify_read;
use chat_relay::reader::is_quit_token;

fn addr(host: u32, port: u16) -> Addr {
    Addr { host, port }
}

fn deliver(act: Action) -> (Vec<u8>, Vec<Addr>) {
    match act {
        Action::Deliver { payload, recipients } => (payload, recipients),
        _ => panic!("expected a delivery"),
    }
}

#[test]
fn quit_token_matches_exact_bytes() {
    assert!(is_quit_token(&b"quit\r\n".to_vec()));
    assert!(!is_quit_token(&b"quit\n".to_vec()));
    assert!(!is_quit_token(&b"quit\r\n\r\n".to_vec()));
    assert!(!is_quit_token(&b"QUIT\r\n".to_vec()));
    assert!(!is_quit_token(&b"".to_vec()));
    assert!(!is_quit_token(&b"quir\r\n".to_vec()));
}

#[test]
fn classification_of_reads() {
    let a = addr(1, 10);
    match classify_read(b"quit\r\n".to_vec(), a) {
        Event::Disconnected(x) => assert_eq!(x, a),
        _ => panic!("quit token must disconnect"),
    }
    match classify_read(b"hello".to_vec(), a) {
        Event::Received(p, x) => {
            assert_eq!(p, b"hello".to_vec());
            assert_eq!(x, a);
        }
        _ => panic!("other bytes must be forwarded"),
    }
    // a partial token and binary data are ordinary messages
    match classify_read(vec![0u8, 255, 13, 10], a) {
        Event::Received(p, _) => assert_eq!(p, vec![0u8, 255, 13, 10]),
        _ => panic!("binary bytes must be forwarded"),
    }
}

#[test]
fn broadcast_reaches_every_other_client() {
    // clients A, B, C connected; A sends "hello"; B and C each receive
    // exactly "hello"; A receives nothing.
    let a = addr(1, 1);
    let b = addr(2, 2);
    let c = addr(3, 3);
    let mut d = Dispatcher::new();
    d.handle_event(Event::Connected(a));
    d.handle_event(Event::Connected(b));
    d.handle_event(Event::Connected(c));
    let (payload, recipients) = deliver(d.handle_event(Event::Received(b"hello".to_vec(), a)));
    assert_eq!(payload, b"hello".to_vec());
    assert_eq!(recipients, vec![b, c]);
}

#[test]
fn quit_removes_sender_and_later_broadcasts_skip_it() {
    // A, B connected; A sends the quit token; B sends "hi"; A is gone from
    // the registry and receives nothing; B's entry remains.
    let a = addr(1, 1);
    let b = addr(2, 2);
    let mut d = Dispatcher::new();
    d.handle_event(Event::Connected(a));
    d.handle_event(Event::Connected(b));
    let quit = classify_read(b"quit\r\n".to_vec(), a);
    match d.handle_event(quit) {
        Action::Close { addr: x } => assert_eq!(x, a),
        _ => panic!("a disconnect must close the socket"),
    }
    assert!(!d.is_registered(a));
    assert!(d.is_registered(b));
    let (_, recipients) = deliver(d.handle_event(Event::Received(b"hi".to_vec(), b)));
    assert_eq!(recipients, Vec::new());
}

#[test]
fn duplicate_connect_registers_once() {
    let a = addr(7, 7);
    let mut d = Dispatcher::new();
    d.handle_event(Event::Connected(a));
    d.handle_event(Event::Connected(a));
    let b = addr(8, 8);
    d.handle_event(Event::Connected(b));
    let (_, recipients) = deliver(d.handle_event(Event::Received(b"x".to_vec(), b)));
    assert_eq!(recipients, vec![a]);
}

#[test]
fn disconnect_twice_is_a_no_op() {
    // removing an address already absent does nothing and does not crash
    let a = addr(1, 1);
    let b = addr(2, 2);
    let mut d = Dispatcher::new();
    d.handle_event(Event::Connected(a));
    d.handle_event(Event::Connected(b));
    d.handle_event(Event::Disconnected(a));
    d.handle_event(Event::Disconnected(a));
    assert!(!d.is_registered(a));
    assert!(d.is_registered(b));
    let (_, recipients) = deliver(d.handle_event(Event::Received(b"m".to_vec(), b)));
    assert_eq!(recipients, Vec::new());
}

#[test]
fn disconnect_of_never_connected_address_is_a_no_op() {
    let a = addr(1, 1);
    let ghostly = addr(9, 9);
    let mut d = Dispatcher::new();
    d.handle_event(Event::Connected(a));
    d.handle_event(Event::Disconnected(ghostly));
    assert!(d.is_registered(a));
}

#[test]
fn payload_of_buffer_length_is_one_read() {
    let data = vec![42u8; 128];
    let chunks = chunk_payload(&data);
    assert_eq!(chunks.len(), 1);
    assert_eq!(chunks[0], data);
}

#[test]
fn payload_of_200_bytes_splits_into_two_reads() {
    let data: Vec<u8> = (0..200u32).map(|i| (i % 256) as u8).collect();
    let chunks = chunk_payload(&data);
    assert_eq!(chunks.len(), 2);
    assert_eq!(chunks[0].len(), 128);
    assert_eq!(chunks[1].len(), 72);
    assert_eq!(chunks[0], data[0..128].to_vec());
    assert_eq!(chunks[1], data[128..200].to_vec());
}

#[test]
fn empty_payload_yields_no_read() {
    let chunks = chunk_payload(&Vec::new());
    assert_eq!(chunks.len(), 0);
}

#[test]
fn registry_tracks_connects_and_disconnects() {
    // a mixed history leaves exactly the live addresses registered
    let addrs: Vec<Addr> = (0..5u16).map(|i| addr(i as u32, i)).collect();
    let mut d = Dispatcher::new();
    for &x in &addrs {
        d.handle_event(Event::Connected(x));
    }
    d.handle_event(Event::Disconnected(addrs[1]));
    d.handle_event(Event::Disconnected(addrs[3]));
    assert!(d.is_registered(addrs[0]));
    assert!(!d.is_registered(addrs[1]));
    assert!(d.is_registered(addrs[2]));
    assert!(!d.is_registered(addrs[3]));
    assert!(d.is_registered(addrs[4]));
    let sender = addr(100, 100);
    d.handle_event(Event::Connected(sender));
    let (_, recipients) = deliver(d.handle_event(Event::Received(b"who".to_vec(), sender)));
    assert_eq!(recipients, vec![addrs[0], addrs[2], addrs[4]]);
}

#[test]
fn two_senders_each_listener_gets_every_message() {
    // two senders, two messages each: the listener receives exactly 2 x 2
    // messages, each sender's stream in order
    let s1 = addr(1, 1);
    let s2 = addr(2, 2);
    let listener = addr(3, 3);
    let mut d = Dispatcher::new();
    d.handle_event(Event::Connected(s1));
    d.handle_event(Event::Connected(s2));
    d.handle_event(Event::Connected(listener));
    let stream: Vec<(Vec<u8>, Addr)> = vec![
        (b"s1-first".to_vec(), s1),
        (b"s2-first".to_vec(), s2),
        (b"s1-second".to_vec(), s1),
        (b"s2-second".to_vec(), s2),
    ];
    let mut heard: Vec<Vec<u8>> = Vec::new();
    for (payload, sender) in stream {
        let (p, recipients) = deliver(d.handle_event(Event::Received(payload, sender)));
        if recipients.contains(&listener) {
            heard.push(p);
        }
    }
    assert_eq!(heard.len(), 4);
    let from_s1: Vec<&Vec<u8>> = heard.iter().filter(|p| p.starts_with(b"s1")).collect();
    assert_eq!(from_s1, vec![&b"s1-first".to_vec(), &b"s1-second".to_vec()]);
    let from_s2: Vec<&Vec<u8>> = heard.iter().filter(|p| p.starts_with(b"s2")).collect();
    assert_eq!(from_s2, vec![&b"s2-first".to_vec(), &b"s2-second".to_vec()]);
}

#[test]
fn chunks_reassemble_to_the_payload() {
    let data: Vec<u8> = (0..1000u32).map(|i| (i * 7 % 251) as u8).collect();
    let chunks = chunk_payload(&data);
    assert_eq!(chunks.len(), 8);
    let mut glued: Vec<u8> = Vec::new();
    for c in &chunks {
        assert!(!c.is_empty() && c.len() <= 128);
        glued.extend_from_slice(c);
    }
    assert_eq!(glued, data);
}
