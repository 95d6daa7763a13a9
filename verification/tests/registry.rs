use webrtc::signalling::message::{Peer, PeerMessage, PeerMessageData, Pos, ServerMessage};
use webrtc::signalling::server::{Delivery, Move, Server};

fn at(x: f32, y: f32) -> Pos {
    Pos { x: x.to_bits(), y: y.to_bits() }
}

fn payload(text: &str) -> serde_json::Value {
    serde_json::Value::String(text.to_string())
}

#[test]
fn new_registry_is_empty() {
    let server: Server<u8> = Server::new();
    assert_eq!(server.len(), 0);
    assert_eq!(server.peers(), vec![]);
    assert!(!server.contains(1));
    assert_eq!(server.addr(1), None);
    assert_eq!(server.pos(1), None);
}

#[test]
fn join_hands_out_one_then_max_plus_one() {
    let mut server: Server<char> = Server::new();
    let (first, _) = server.join(at(1.0, 1.0), 'a').unwrap();
    let (second, _) = server.join(at(2.0, 2.0), 'b').unwrap();
    let (third, _) = server.join(at(3.0, 3.0), 'c').unwrap();
    assert_eq!((first, second, third), (1, 2, 3));
    assert_eq!(server.len(), 3);
    assert_eq!(
        server.peers(),
        vec![
            Peer { id: 1, pos: at(1.0, 1.0) },
            Peer { id: 2, pos: at(2.0, 2.0) },
            Peer { id: 3, pos: at(3.0, 3.0) },
        ]
    );
}

#[test]
fn join_returns_hello_listing_only_the_others() {
    let mut server: Server<char> = Server::new();
    server.join(at(1.0, 1.0), 'a').unwrap();
    server.join(at(2.0, 2.0), 'b').unwrap();
    let (id, hello) = server.join(at(3.0, 3.0), 'c').unwrap();
    assert_eq!(
        hello,
        ServerMessage::Hello {
            state: Peer { id, pos: at(3.0, 3.0) },
            peers: vec![Peer { id: 1, pos: at(1.0, 1.0) }, Peer { id: 2, pos: at(2.0, 2.0) }],
        }
    );
}

#[test]
fn ids_are_never_handed_out_twice() {
    let mut server: Server<char> = Server::new();
    server.join(at(1.0, 1.0), 'a').unwrap();
    server.join(at(2.0, 2.0), 'b').unwrap();
    server.join(at(3.0, 3.0), 'c').unwrap();
    assert_eq!(server.leave(2), Some('b'));
    let (id, _) = server.join(at(4.0, 4.0), 'd').unwrap();
    assert_eq!(id, 4);
    assert_eq!(server.leave(4), Some('d'));
    assert_eq!(server.leave(3), Some('c'));
    let (id, _) = server.join(at(5.0, 5.0), 'e').unwrap();
    assert_eq!(id, 5);
    assert_eq!(server.leave(1), Some('a'));
    assert_eq!(server.leave(5), Some('e'));
    assert_eq!(server.len(), 0);
    let (id, _) = server.join(at(6.0, 6.0), 'f').unwrap();
    assert_eq!(id, 6);
}

#[test]
fn join_join_quit_join_gives_a_new_id() {
    let mut server: Server<char> = Server::new();
    assert_eq!(server.handle_join(at(1.0, 1.0), 'a').unwrap().0, 1);
    assert_eq!(server.handle_join(at(2.0, 2.0), 'b').unwrap().0, 2);
    server.handle_quit(2);
    assert_eq!(server.handle_join(at(3.0, 3.0), 'c').unwrap().0, 3);
    assert_eq!(server.peers(), vec![Peer { id: 1, pos: at(1.0, 1.0) }, Peer { id: 3, pos: at(3.0, 3.0) }]);
}

#[test]
fn many_connections_get_distinct_ids() {
    let mut server: Server<usize> = Server::new();
    let mut seen: Vec<usize> = Vec::new();
    for n in 0..200usize {
        let (id, _) = server.handle_join(at(1.0, 1.0), n).unwrap();
        assert!(id >= 1);
        assert!(!seen.contains(&id));
        seen.push(id);
        if n % 3 != 0 {
            server.handle_quit(id);
        }
        if n % 7 == 0 {
            server.handle_quit(seen[n / 2]);
        }
    }
    assert_eq!(seen, (1..=200).collect::<Vec<usize>>());
}

#[test]
fn newcomer_drawn_outside_the_area_starts_at_the_origin() {
    let mut server: Server<char> = Server::new();
    for drawn in [at(800.0, 1.0), at(1.0, 600.0), at(-1.0, 1.0), at(f32::NAN, 0.0), at(0.0, f32::INFINITY)] {
        let (id, deliveries) = server.handle_join(drawn, 'x').unwrap();
        assert_eq!(
            deliveries[0].message,
            ServerMessage::Hello { state: Peer { id, pos: Pos { x: 0, y: 0 } }, peers: vec![] }
        );
        assert_eq!(server.pos(id), Some(Pos { x: 0, y: 0 }));
        server.handle_quit(id);
    }
    let (id, _) = server.handle_join(at(799.5, 599.5), 'y').unwrap();
    assert_eq!(server.pos(id), Some(at(799.5, 599.5)));
}

#[test]
fn move_to_a_position_that_is_not_finite_is_refused() {
    let mut server: Server<char> = Server::new();
    server.handle_join(at(1.0, 1.0), 'a').unwrap();
    server.handle_join(at(2.0, 2.0), 'b').unwrap();
    let before = server.peers();
    for odd in [
        at(f32::INFINITY, 0.0),
        at(0.0, f32::NEG_INFINITY),
        at(f32::NAN, 0.0),
        at(1.0, -f32::NAN),
        Pos { x: 1.0e39f64 as f32 as u32, y: 0x7f80_0000 },
    ] {
        assert!(!server.move_to(1, odd));
        assert_eq!(server.handle_move(Move { id: 1, pos: odd }), vec![]);
        assert_eq!(server.peers(), before);
    }
    assert!(server.move_to(1, at(f32::MAX, f32::MIN)));
    assert_eq!(server.handle_move(Move { id: 1, pos: at(-0.0, 1.0e-45) }).len(), 2);
}

#[test]
fn lookup_finds_every_peer_and_nothing_else() {
    let mut server: Server<usize> = Server::new();
    for n in 1..=40usize {
        let (id, _) = server.join(at(n as f32, 0.0), n * 10).unwrap();
        assert_eq!(id, n);
    }
    for gone in [3usize, 4, 17, 40, 1] {
        assert_eq!(server.leave(gone), Some(gone * 10));
    }
    for id in 0..=45usize {
        let expected = (1..=40).contains(&id) && ![3usize, 4, 17, 40, 1].contains(&id);
        assert_eq!(server.contains(id), expected);
        assert_eq!(server.addr(id).copied(), if expected { Some(id * 10) } else { None });
        assert_eq!(server.pos(id), if expected { Some(at(id as f32, 0.0)) } else { None });
    }
    assert_eq!(server.len(), 35);
}

#[test]
fn leave_removes_the_record_and_keeps_the_order() {
    let mut server: Server<char> = Server::new();
    server.join(at(1.0, 1.0), 'a').unwrap();
    server.join(at(2.0, 2.0), 'b').unwrap();
    server.join(at(3.0, 3.0), 'c').unwrap();
    assert_eq!(server.leave(2), Some('b'));
    assert_eq!(
        server.peers(),
        vec![Peer { id: 1, pos: at(1.0, 1.0) }, Peer { id: 3, pos: at(3.0, 3.0) }]
    );
    assert_eq!(server.addr(1), Some(&'a'));
    assert_eq!(server.addr(2), None);
    assert_eq!(server.addr(3), Some(&'c'));
}

#[test]
fn leave_twice_is_a_no_op() {
    let mut server: Server<char> = Server::new();
    server.join(at(1.0, 1.0), 'a').unwrap();
    server.join(at(2.0, 2.0), 'b').unwrap();
    assert_eq!(server.leave(1), Some('a'));
    let after_once = server.peers();
    assert_eq!(server.leave(1), None);
    assert_eq!(server.peers(), after_once);
    assert_eq!(server.leave(0), None);
    assert_eq!(server.leave(99), None);
    assert_eq!(server.peers(), after_once);
}

#[test]
fn move_to_updates_only_the_mover() {
    let mut server: Server<char> = Server::new();
    server.join(at(1.0, 1.0), 'a').unwrap();
    server.join(at(2.0, 2.0), 'b').unwrap();
    assert!(server.move_to(2, at(-7.5, 0.25)));
    assert_eq!(
        server.peers(),
        vec![Peer { id: 1, pos: at(1.0, 1.0) }, Peer { id: 2, pos: at(-7.5, 0.25) }]
    );
    assert_eq!(server.pos(2), Some(at(-7.5, 0.25)));
    assert_eq!(server.addr(2), Some(&'b'));
}

#[test]
fn move_to_of_a_stranger_changes_nothing() {
    let mut server: Server<char> = Server::new();
    server.join(at(1.0, 1.0), 'a').unwrap();
    assert!(!server.move_to(5, at(9.0, 9.0)));
    assert_eq!(server.peers(), vec![Peer { id: 1, pos: at(1.0, 1.0) }]);
}

#[test]
fn send_to_reaches_a_connected_peer_only() {
    let mut server: Server<char> = Server::new();
    server.join(at(1.0, 1.0), 'a').unwrap();
    assert_eq!(
        server.send_to(1, ServerMessage::RemovePeer { peer: 9 }),
        vec![Delivery { to: 1, message: ServerMessage::RemovePeer { peer: 9 } }]
    );
    assert_eq!(server.send_to(2, ServerMessage::RemovePeer { peer: 9 }), vec![]);
}

#[test]
fn broadcast_reaches_everyone_in_joining_order() {
    let mut server: Server<char> = Server::new();
    server.join(at(1.0, 1.0), 'a').unwrap();
    server.join(at(2.0, 2.0), 'b').unwrap();
    server.join(at(3.0, 3.0), 'c').unwrap();
    let message = ServerMessage::MovePeer { peer: 2, pos: at(0.5, 0.5) };
    assert_eq!(
        server.broadcast(&message, None),
        vec![
            Delivery { to: 1, message: message.clone() },
            Delivery { to: 2, message: message.clone() },
            Delivery { to: 3, message: message.clone() },
        ]
    );
}

#[test]
fn broadcast_skips_the_excepted_peer() {
    let mut server: Server<char> = Server::new();
    server.join(at(1.0, 1.0), 'a').unwrap();
    server.join(at(2.0, 2.0), 'b').unwrap();
    server.join(at(3.0, 3.0), 'c').unwrap();
    let message = ServerMessage::AddPeer { peer: Peer { id: 2, pos: at(2.0, 2.0) } };
    assert_eq!(
        server.broadcast(&message, Some(2)),
        vec![
            Delivery { to: 1, message: message.clone() },
            Delivery { to: 3, message: message.clone() },
        ]
    );
    assert_eq!(server.broadcast(&message, Some(7)).len(), 3);
}

#[test]
fn broadcast_to_nobody_is_empty() {
    let server: Server<char> = Server::new();
    assert_eq!(server.broadcast(&ServerMessage::RemovePeer { peer: 1 }, None), vec![]);
}

#[test]
fn broadcast_copies_the_payload() {
    let mut server: Server<char> = Server::new();
    server.join(at(1.0, 1.0), 'a').unwrap();
    server.join(at(2.0, 2.0), 'b').unwrap();
    let message = ServerMessage::PeerMessage {
        message: PeerMessage { peer: 1, data: PeerMessageData::SDP { data: payload("v=0") } },
    };
    let deliveries = server.broadcast(&message, None);
    assert_eq!(deliveries.len(), 2);
    for delivery in deliveries {
        assert_eq!(
            delivery.message,
            ServerMessage::PeerMessage {
                message: PeerMessage {
                    peer: 1,
                    data: PeerMessageData::SDP { data: payload("v=0") },
                },
            }
        );
    }
}

#[test]
fn quit_of_a_stranger_sends_nothing() {
    let mut server: Server<char> = Server::new();
    server.handle_join(at(1.0, 1.0), 'a').unwrap();
    assert_eq!(server.handle_quit(0), vec![]);
    assert_eq!(server.handle_quit(2), vec![]);
    assert_eq!(server.len(), 1);
}

#[test]
fn quit_twice_announces_the_departure_once() {
    let mut server: Server<char> = Server::new();
    server.handle_join(at(1.0, 1.0), 'a').unwrap();
    server.handle_join(at(2.0, 2.0), 'b').unwrap();
    server.handle_join(at(3.0, 3.0), 'c').unwrap();
    assert_eq!(
        server.handle_quit(2),
        vec![
            Delivery { to: 1, message: ServerMessage::RemovePeer { peer: 2 } },
            Delivery { to: 3, message: ServerMessage::RemovePeer { peer: 2 } },
        ]
    );
    assert_eq!(server.handle_quit(2), vec![]);
    assert_eq!(server.len(), 2);
}

#[test]
fn last_peer_leaves_an_empty_registry() {
    let mut server: Server<char> = Server::new();
    server.handle_join(at(1.0, 1.0), 'a').unwrap();
    assert_eq!(server.handle_quit(1), vec![]);
    assert_eq!(server.len(), 0);
    let (id, deliveries) = server.handle_join(at(2.0, 2.0), 'b').unwrap();
    assert_eq!(id, 2);
    assert_eq!(deliveries.len(), 1);
}

#[test]
fn move_of_a_stranger_is_still_announced() {
    let mut server: Server<char> = Server::new();
    server.handle_join(at(1.0, 1.0), 'a').unwrap();
    let deliveries = server.handle_move(Move { id: 7, pos: at(4.0, 4.0) });
    assert_eq!(
        deliveries,
        vec![Delivery { to: 1, message: ServerMessage::MovePeer { peer: 7, pos: at(4.0, 4.0) } }]
    );
    assert_eq!(server.peers(), vec![Peer { id: 1, pos: at(1.0, 1.0) }]);
}

#[test]
fn message_to_oneself_comes_back() {
    let mut server: Server<char> = Server::new();
    server.handle_join(at(1.0, 1.0), 'a').unwrap();
    let message = PeerMessage { peer: 1, data: PeerMessageData::SDP { data: payload("x") } };
    assert_eq!(
        server.handle_peer(1, message),
        vec![Delivery {
            to: 1,
            message: ServerMessage::PeerMessage {
                message: PeerMessage { peer: 1, data: PeerMessageData::SDP { data: payload("x") } },
            },
        }]
    );
}

#[test]
fn every_delivery_has_a_handle() {
    let mut server: Server<String> = Server::new();
    let mut all: Vec<Delivery> = Vec::new();
    for name in ["a", "b", "c", "d"] {
        let (_, deliveries) = server.handle_join(at(0.0, 0.0), name.to_string()).unwrap();
        for delivery in &deliveries {
            assert!(server.addr(delivery.to).is_some());
        }
        all.extend(deliveries);
    }
    for delivery in server.handle_quit(3) {
        assert!(server.addr(delivery.to).is_some());
        assert_ne!(delivery.to, 3);
    }
    assert_eq!(all.len(), 1 + 2 + 3 + 4);
}
