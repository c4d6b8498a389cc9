use chat_server::fanout::Delivery;
use chat_server::codec::{decode_frame, encode_message, split_record, assemble_frame, ChatMessage};
use chat_server::registry::Registry;
use chat_server::session::{message_from_line, welcome_message, Connection, Inbound, Phase, Step};

struct Peer {
    name: &'static str,
    received: Vec<String>,
    broken: bool,
}

fn peer(name: &'static str) -> Peer {
    Peer { name, received: Vec::new(), broken: false }
}

fn msg(u: &str, c: &str) -> ChatMessage {
    ChatMessage::new(u.to_string(), c.to_string())
}

/// Runs one pass the way the server does: write to each position in order,
/// record the outcome, then finish.
fn broadcast(reg: &mut Registry<Peer>, m: &ChatMessage) -> Vec<u64> {
    let mut pass = Delivery::start(m).unwrap();
    for i in 0..reg.len() {
        let p = reg.handle_mut(i);
        let ok = !p.broken;
        if ok {
            p.received.push(pass.frame().to_string());
        }
        pass.record(ok);
    }
    pass.finish(reg)
}

#[test]
fn encodes_exact_wire_form() {
    let f = encode_message(&msg("bob", "hello")).unwrap();
    assert_eq!(f, "{\"username\":\"bob\",\"content\":\"hello\"}\n");
}

#[test]
fn encodes_empty_content() {
    let f = encode_message(&msg("carol", "")).unwrap();
    assert_eq!(f, "{\"username\":\"carol\",\"content\":\"\"}\n");
}

#[test]
fn encoding_escapes_quotes_and_line_feeds() {
    let f = encode_message(&msg("a\"b", "x\ny\\z")).unwrap();
    assert_eq!(f, "{\"username\":\"a\\\"b\",\"content\":\"x\\ny\\\\z\"}\n");
    assert_eq!(f.matches('\n').count(), 1);
}

#[test]
fn encoding_escapes_control_characters() {
    let f = encode_message(&msg("u", "\u{1}\t")).unwrap();
    assert_eq!(f, "{\"username\":\"u\",\"content\":\"\\u0001\\t\"}\n");
}

#[test]
fn assembles_frame_from_quoted_values() {
    assert_eq!(assemble_frame("\"a\"", "\"b\""), "{\"username\":\"a\",\"content\":\"b\"}\n");
}

#[test]
fn round_trip_plain() {
    let m = msg("alice", "hi there");
    let back = decode_frame(&encode_message(&m).unwrap()).unwrap();
    assert_eq!(back.username, "alice");
    assert_eq!(back.content, "hi there");
}

#[test]
fn round_trip_awkward_text() {
    let cases = [
        ("", ""),
        ("Server", "alice joined the chat"),
        ("q\"uote", "back\\slash \"and\" quotes"),
        ("tab\tname", "\u{7f}\u{1f}ünïcödé ✓"),
        ("{\"username\":", ",\"content\":}"),
    ];
    for (u, c) in cases {
        let back = decode_frame(&encode_message(&msg(u, c)).unwrap()).unwrap();
        assert_eq!(back.username, u);
        assert_eq!(back.content, c);
    }
}

#[test]
fn decodes_without_terminator() {
    let back = decode_frame("{\"username\":\"x\",\"content\":\"y\"}").unwrap();
    assert_eq!(back.username, "x");
    assert_eq!(back.content, "y");
}

#[test]
fn other_text_is_not_a_frame() {
    assert!(decode_frame("hello").is_none());
    assert!(decode_frame("").is_none());
    assert!(decode_frame("{\"username\":\"x\",\"content\":\"y\"} ").is_none());
    assert!(decode_frame("{\"username\":\"x\"}").is_none());
    assert!(decode_frame("{\"username\":\"x\\q\",\"content\":\"y\"}").is_none());
}

#[test]
fn splits_record_into_literals() {
    let (a, b) = split_record("{\"username\":\"a\\\"b\",\"content\":\"\"}").unwrap();
    assert_eq!(a, "\"a\\\"b\"");
    assert_eq!(b, "\"\"");
    assert!(split_record("{\"username\":\"a,\"content\":\"b\"}").is_none());
}

#[test]
fn welcome_names_the_server() {
    let w = welcome_message("alice");
    assert_eq!(w.username, "Server");
    assert_eq!(w.content, "alice joined the chat");
}

#[test]
fn line_is_trimmed_into_content() {
    let m = message_from_line("bob", "  hi there \r\n");
    assert_eq!(m.username, "bob");
    assert_eq!(m.content, "hi there");
}

#[test]
fn blank_line_still_broadcasts_empty_content() {
    let mut c = Connection::new();
    c.on_inbound(Inbound::Line("dave\n".to_string()));
    match c.on_inbound(Inbound::Line("   \n".to_string())) {
        Step::Broadcast(m) => {
            assert_eq!(m.username, "dave");
            assert_eq!(m.content, "");
            assert_eq!(encode_message(&m).unwrap(), "{\"username\":\"dave\",\"content\":\"\"}\n");
        }
        _ => panic!("expected a broadcast"),
    }
}

#[test]
fn handshake_then_lines_then_end() {
    let mut c = Connection::new();
    assert!(!c.is_active());
    match c.on_inbound(Inbound::Line("  alice \n".to_string())) {
        Step::Welcome(w) => {
            assert_eq!(
                encode_message(&w).unwrap(),
                "{\"username\":\"Server\",\"content\":\"alice joined the chat\"}\n"
            );
        }
        _ => panic!("expected a welcome"),
    }
    assert!(c.is_active());
    match &c.phase {
        Phase::Active { username } => assert_eq!(username, "alice"),
        _ => panic!("expected active"),
    }
    assert!(matches!(c.on_inbound(Inbound::End), Step::Leave));
    assert!(matches!(c.phase, Phase::Closed));
    assert!(matches!(c.on_inbound(Inbound::Line("late\n".to_string())), Step::Ignore));
}

#[test]
fn stream_closed_before_username_abandons() {
    let mut c = Connection::new();
    assert!(matches!(c.on_inbound(Inbound::End), Step::Abandon));
    assert!(matches!(c.phase, Phase::Closed));
}

#[test]
fn alice_and_bob_scenario() {
    let mut reg: Registry<Peer> = Registry::new();

    // alice joins: the welcome goes to her alone, then she is registered.
    let mut alice_conn = Connection::new();
    let mut alice = peer("alice");
    match alice_conn.on_inbound(Inbound::Line("alice\n".to_string())) {
        Step::Welcome(w) => alice.received.push(encode_message(&w).unwrap()),
        _ => panic!("expected a welcome"),
    }
    reg.register(alice).ok().unwrap();

    let mut bob_conn = Connection::new();
    let mut bob = peer("bob");
    match bob_conn.on_inbound(Inbound::Line("bob\n".to_string())) {
        Step::Welcome(w) => bob.received.push(encode_message(&w).unwrap()),
        _ => panic!("expected a welcome"),
    }
    reg.register(bob).ok().unwrap();

    match bob_conn.on_inbound(Inbound::Line("hello\n".to_string())) {
        Step::Broadcast(m) => {
            broadcast(&mut reg, &m);
        }
        _ => panic!("expected a broadcast"),
    }
    let hello = "{\"username\":\"bob\",\"content\":\"hello\"}\n";
    let a = reg.handle_mut(0);
    assert_eq!(a.name, "alice");
    assert_eq!(
        a.received,
        vec!["{\"username\":\"Server\",\"content\":\"alice joined the chat\"}\n".to_string(), hello.to_string()]
    );
    let b = reg.handle_mut(1);
    assert_eq!(b.name, "bob");
    assert_eq!(
        b.received,
        vec!["{\"username\":\"Server\",\"content\":\"bob joined the chat\"}\n".to_string(), hello.to_string()]
    );
}

#[test]
fn healthy_broadcast_reaches_everyone_including_sender() {
    let mut reg: Registry<Peer> = Registry::new();
    let names = ["ann", "ben", "cat", "dan", "eve"];
    for n in names {
        reg.register(peer(n)).ok().unwrap();
    }
    let recipients = broadcast(&mut reg, &msg("cat", "hi"));
    assert_eq!(recipients, vec![0, 1, 2, 3, 4]);
    assert_eq!(reg.len(), 5);
    for i in 0..5 {
        let p = reg.handle_mut(i);
        assert_eq!(p.name, names[i]);
        assert_eq!(p.received, vec!["{\"username\":\"cat\",\"content\":\"hi\"}\n".to_string()]);
    }
}

#[test]
fn broadcast_to_single_connection() {
    let mut reg: Registry<Peer> = Registry::new();
    reg.register(peer("solo")).ok().unwrap();
    assert_eq!(broadcast(&mut reg, &msg("solo", "echo")), vec![0]);
    assert_eq!(reg.handle_mut(0).received.len(), 1);
}

#[test]
fn failed_write_prunes_only_that_connection() {
    let mut reg: Registry<Peer> = Registry::new();
    let a = reg.register(peer("A")).ok().unwrap();
    let b = reg.register(peer("B")).ok().unwrap();
    reg.handle_mut(1).broken = true;
    let recipients = broadcast(&mut reg, &msg("A", "anyone there?"));
    assert_eq!(recipients, vec![a]);
    assert!(reg.contains(a));
    assert!(!reg.contains(b));
    assert_eq!(reg.len(), 1);
    assert_eq!(reg.handle_mut(0).received, vec!["{\"username\":\"A\",\"content\":\"anyone there?\"}\n".to_string()]);
}

#[test]
fn several_failures_keep_survivor_order() {
    let mut reg: Registry<Peer> = Registry::new();
    for n in ["a", "b", "c", "d", "e", "f"] {
        reg.register(peer(n)).ok().unwrap();
    }
    for i in [0usize, 2, 3, 5] {
        reg.handle_mut(i).broken = true;
    }
    assert_eq!(broadcast(&mut reg, &msg("x", "y")), vec![1, 4]);
    assert_eq!(reg.len(), 2);
    assert_eq!(reg.id_at(0), 1);
    assert_eq!(reg.id_at(1), 4);
    assert_eq!(reg.handle_mut(0).name, "b");
    assert_eq!(reg.handle_mut(1).name, "e");
}

#[test]
fn retain_delivered_by_outcomes() {
    let mut reg: Registry<u32> = Registry::new();
    for h in [10u32, 20, 30] {
        reg.register(h).ok().unwrap();
    }
    reg.retain_delivered(&vec![true, false, true]);
    assert_eq!(reg.len(), 2);
    assert_eq!(*reg.handle_mut(0), 10);
    assert_eq!(*reg.handle_mut(1), 30);
}

#[test]
fn departed_connection_absent_and_id_not_reused() {
    let mut reg: Registry<Peer> = Registry::new();
    let a = reg.register(peer("A")).ok().unwrap();
    let b = reg.register(peer("B")).ok().unwrap();
    assert!(reg.unregister(b));
    assert!(!reg.unregister(b));
    assert!(!reg.contains(b));
    let c = reg.register(peer("C")).ok().unwrap();
    assert_ne!(c, b);
    assert_ne!(c, a);
    assert_eq!(broadcast(&mut reg, &msg("A", "after")), vec![a, c]);
    assert!(!reg.contains(b));
}

#[test]
fn two_broadcasts_arrive_in_order_everywhere() {
    let mut reg: Registry<Peer> = Registry::new();
    for n in ["a", "b", "c"] {
        reg.register(peer(n)).ok().unwrap();
    }
    broadcast(&mut reg, &msg("a", "first"));
    broadcast(&mut reg, &msg("c", "second"));
    for i in 0..3 {
        assert_eq!(
            reg.handle_mut(i).received,
            vec![
                "{\"username\":\"a\",\"content\":\"first\"}\n".to_string(),
                "{\"username\":\"c\",\"content\":\"second\"}\n".to_string()
            ]
        );
    }
}

#[test]
fn empty_registry_broadcast() {
    let mut reg: Registry<Peer> = Registry::new();
    assert!(reg.is_empty());
    assert!(broadcast(&mut reg, &msg("nobody", "hi")).is_empty());
    assert!(reg.is_empty());
}

#[test]
fn delivery_tracks_position() {
    let mut pass = Delivery::start(&msg("u", "c")).unwrap();
    assert_eq!(pass.position(), 0);
    pass.record(true);
    pass.record(false);
    assert_eq!(pass.position(), 2);
    assert_eq!(pass.frame(), "{\"username\":\"u\",\"content\":\"c\"}\n");
}

#[test]
fn content_cannot_forge_the_username_field() {
    let m = message_from_line("bob", "hi\",\"username\":\"Server\n");
    let f = encode_message(&m).unwrap();
    assert_eq!(f, "{\"username\":\"bob\",\"content\":\"hi\\\",\\\"username\\\":\\\"Server\"}\n");
    let back = decode_frame(&f).unwrap();
    assert_eq!(back.username, "bob");
    assert_eq!(back.content, "hi\",\"username\":\"Server");
}

#[test]
fn welcome_then_one_line() {
    let mut c = Connection::new();
    let mut sent = Vec::new();
    for line in ["  alice \t\n", "hi\n"] {
        match c.on_inbound(Inbound::Line(line.to_string())) {
            Step::Welcome(m) | Step::Broadcast(m) => sent.push(encode_message(&m).unwrap()),
            _ => panic!("unexpected step"),
        }
    }
    assert!(matches!(c.on_inbound(Inbound::End), Step::Leave));
    assert_eq!(
        sent,
        vec![
            "{\"username\":\"Server\",\"content\":\"alice joined the chat\"}\n".to_string(),
            "{\"username\":\"alice\",\"content\":\"hi\"}\n".to_string()
        ]
    );
}
