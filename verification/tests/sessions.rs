use webrtc::signalling::message::{ClientMessage, PeerMessage, PeerMessageData, Pos};
use webrtc::signalling::server::Move;
use webrtc::signalling::session::{Command, Connection, Inbound};

fn text() -> serde_json::Value {
    serde_json::Value::String("candidate".to_string())
}

fn active(id: usize) -> Connection {
    let mut connection = Connection::new();
    assert_eq!(connection.joined(Some(id)), Command::Nothing);
    connection
}

#[test]
fn new_connection_waits_to_join() {
    let connection = Connection::new();
    assert_eq!(connection, Connection::Joining);
    assert_eq!(connection.id(), None);
}

#[test]
fn joined_with_an_id_becomes_active() {
    let mut connection = Connection::new();
    assert_eq!(connection.joined(Some(4)), Command::Nothing);
    assert_eq!(connection, Connection::Active { id: 4 });
    assert_eq!(connection.id(), Some(4));
}

#[test]
fn joined_without_an_id_stops() {
    let mut connection = Connection::new();
    assert_eq!(connection.joined(None), Command::Stop { close: false });
    assert_eq!(connection, Connection::Done);
    assert_eq!(connection.stopping(), Command::Nothing);
}

#[test]
fn joined_after_the_end_hands_the_id_back() {
    let mut connection = Connection::new();
    assert_eq!(connection.stopping(), Command::Nothing);
    assert_eq!(connection.joined(Some(6)), Command::Quit { id: 6 });
    assert_eq!(connection, Connection::Done);
    assert_eq!(connection.joined(None), Command::Nothing);
}

#[test]
fn joined_twice_keeps_the_first_id() {
    let mut connection = active(2);
    assert_eq!(connection.joined(Some(9)), Command::Nothing);
    assert_eq!(connection, Connection::Active { id: 2 });
}

#[test]
fn peer_message_is_relayed_under_the_own_id() {
    let mut connection = active(3);
    let message = PeerMessage { peer: 8, data: PeerMessageData::ICECandidate { data: text() } };
    let command = connection.handle(Inbound::Message(ClientMessage::Peer { message }));
    assert_eq!(
        command,
        Command::Relay {
            source: 3,
            message: PeerMessage {
                peer: 8,
                data: PeerMessageData::ICECandidate { data: text() },
            },
        }
    );
    assert_eq!(connection, Connection::Active { id: 3 });
}

#[test]
fn move_is_reported_under_the_own_id() {
    let mut connection = active(3);
    let pos = Pos { x: 10.0f32.to_bits(), y: 20.0f32.to_bits() };
    let command = connection.handle(Inbound::Message(ClientMessage::Move { pos }));
    assert_eq!(command, Command::Move(Move { id: 3, pos }));
    assert_eq!(connection, Connection::Active { id: 3 });
}

#[test]
fn other_frames_are_ignored() {
    let mut connection = active(3);
    assert_eq!(connection.handle(Inbound::Other), Command::Nothing);
    assert_eq!(connection, Connection::Active { id: 3 });
}

#[test]
fn close_frame_is_answered_and_ends_the_relaying() {
    let mut connection = active(3);
    assert_eq!(connection.handle(Inbound::Close), Command::Stop { close: true });
    assert_eq!(connection, Connection::Leaving { id: 3 });
    assert_eq!(connection.id(), Some(3));
}

#[test]
fn malformed_text_ends_the_relaying_without_an_answer() {
    let mut connection = active(3);
    assert_eq!(connection.handle(Inbound::Malformed), Command::Stop { close: false });
    assert_eq!(connection, Connection::Leaving { id: 3 });
}

#[test]
fn read_failure_ends_the_relaying() {
    let mut connection = active(3);
    assert_eq!(connection.handle(Inbound::Failed), Command::Stop { close: false });
    assert_eq!(connection, Connection::Leaving { id: 3 });
}

#[test]
fn frames_are_ignored_unless_active() {
    let pos = Pos { x: 0, y: 0 };
    for mut connection in
        [Connection::Joining, Connection::Leaving { id: 3 }, Connection::Done]
    {
        let before = connection;
        assert_eq!(
            connection.handle(Inbound::Message(ClientMessage::Move { pos })),
            Command::Nothing
        );
        assert_eq!(connection.handle(Inbound::Close), Command::Nothing);
        assert_eq!(connection.handle(Inbound::Malformed), Command::Nothing);
        assert_eq!(connection.handle(Inbound::Failed), Command::Nothing);
        assert_eq!(connection.handle(Inbound::Other), Command::Nothing);
        assert_eq!(connection, before);
    }
}

#[test]
fn stopping_tells_the_registry_once() {
    let mut connection = active(5);
    assert_eq!(connection.handle(Inbound::Close), Command::Stop { close: true });
    assert_eq!(connection.stopping(), Command::Quit { id: 5 });
    assert_eq!(connection, Connection::Done);
    assert_eq!(connection.stopping(), Command::Nothing);
    assert_eq!(connection.id(), None);
}

#[test]
fn stopping_while_active_tells_the_registry() {
    let mut connection = active(5);
    assert_eq!(connection.stopping(), Command::Quit { id: 5 });
    assert_eq!(connection, Connection::Done);
}

#[test]
fn stopping_before_joining_tells_nobody() {
    let mut connection = Connection::new();
    assert_eq!(connection.stopping(), Command::Nothing);
    assert_eq!(connection, Connection::Done);
}

#[test]
fn move_to_a_position_that_is_not_finite_ends_the_relaying() {
    for (x, y) in [
        (f32::INFINITY, 0.0),
        (0.0, f32::NEG_INFINITY),
        (f32::NAN, 1.0),
        (1.0, f32::NAN),
        (1.0e39f64 as f32, 0.0),
    ] {
        let mut connection = active(3);
        let pos = Pos { x: x.to_bits(), y: y.to_bits() };
        let command = connection.handle(Inbound::Message(ClientMessage::Move { pos }));
        assert_eq!(command, Command::Stop { close: false });
        assert_eq!(connection, Connection::Leaving { id: 3 });
        assert_eq!(connection.stopping(), Command::Quit { id: 3 });
    }
}

#[test]
fn move_to_any_finite_position_is_reported() {
    for (x, y) in [(0.0f32, -0.0f32), (f32::MAX, f32::MIN), (1.0e-45, -1.0e-45), (-800.0, 1.0e30)] {
        let mut connection = active(3);
        let pos = Pos { x: x.to_bits(), y: y.to_bits() };
        let command = connection.handle(Inbound::Message(ClientMessage::Move { pos }));
        assert_eq!(command, Command::Move(Move { id: 3, pos }));
        assert_eq!(connection, Connection::Active { id: 3 });
    }
}
