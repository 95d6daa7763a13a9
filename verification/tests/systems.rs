use webrtc::signalling::message::{ClientMessage, PeerMessage, PeerMessageData, Pos, ServerMessage};
use webrtc::signalling::server::{Delivery, Server};
use webrtc::signalling::session::{Command, Connection, Inbound};

/// A hub with its connections, numbered in the order of acceptance.
struct Hub {
    server: Server<usize>,
    connections: Vec<Connection>,
    sent: Vec<Delivery>,
    stopped: Vec<usize>,
}

impl Hub {
    fn new() -> Hub {
        Hub { server: Server::new(), connections: vec![], sent: vec![], stopped: vec![] }
    }

    fn perform(&mut self, n: usize, command: Command) {
        let deliveries = match command {
            Command::Nothing => vec![],
            Command::Relay { source, message } => self.server.handle_peer(source, message),
            Command::Move(moved) => self.server.handle_move(moved),
            Command::Quit { id } => self.server.handle_quit(id),
            Command::Stop { .. } => {
                self.stopped.push(n);
                vec![]
            }
        };
        self.sent.extend(deliveries);
        self.check();
    }

    fn accept(&mut self) -> usize {
        let n = self.connections.len();
        let pos = Pos { x: n as u32, y: 0 };
        let mut connection = Connection::new();
        let joined = self.server.handle_join(pos, n).map(|(id, deliveries)| {
            self.sent.extend(deliveries);
            id
        });
        let command = connection.joined(joined);
        self.connections.push(connection);
        self.perform(n, command);
        n
    }

    fn frame(&mut self, n: usize, frame: Inbound) {
        let command = self.connections[n].handle(frame);
        self.perform(n, command);
    }

    fn stop(&mut self, n: usize) {
        let command = self.connections[n].stopping();
        self.perform(n, command);
    }

    /// The roster holds exactly the registered connections, each once.
    fn check(&self) {
        let mut registered: Vec<(usize, usize)> = self
            .connections
            .iter()
            .enumerate()
            .filter_map(|(n, connection)| connection.id().map(|id| (id, n)))
            .collect();
        registered.sort();
        let roster: Vec<(usize, usize)> = self
            .server
            .peers()
            .iter()
            .map(|peer| (peer.id, *self.server.addr(peer.id).unwrap()))
            .collect();
        assert_eq!(roster, registered);
    }

    fn stream(&self, id: usize) -> Vec<&ServerMessage> {
        self.sent.iter().filter(|d| d.to == id).map(|d| &d.message).collect()
    }
}

fn say(to: usize, text: &str) -> Inbound {
    Inbound::Message(ClientMessage::Peer {
        message: PeerMessage {
            peer: to,
            data: PeerMessageData::SDP { data: serde_json::Value::String(text.to_string()) },
        },
    })
}

fn heard(from: usize, text: &str) -> ServerMessage {
    ServerMessage::PeerMessage {
        message: PeerMessage {
            peer: from,
            data: PeerMessageData::SDP { data: serde_json::Value::String(text.to_string()) },
        },
    }
}

#[test]
fn connections_and_registry_stay_in_step() {
    let mut hub = Hub::new();
    let a = hub.accept();
    let b = hub.accept();
    hub.frame(a, say(2, "offer"));
    hub.frame(b, say(1, "answer"));
    hub.frame(b, Inbound::Other);
    hub.frame(a, Inbound::Message(ClientMessage::Move { pos: Pos { x: 7, y: 8 } }));
    let c = hub.accept();
    hub.frame(b, Inbound::Close);
    hub.frame(b, say(1, "too late"));
    hub.stop(b);
    hub.stop(b);
    hub.frame(c, say(2, "to nobody"));
    hub.frame(a, Inbound::Malformed);
    let d = hub.accept();
    hub.stop(a);
    hub.frame(c, Inbound::Failed);
    hub.stop(c);
    hub.stop(d);

    assert_eq!(hub.connections, vec![Connection::Done; 4]);
    assert_eq!(hub.server.len(), 0);
    assert_eq!(hub.stopped, vec![b, a, c]);
    assert_eq!(
        hub.stream(2),
        vec![
            &ServerMessage::Hello {
                state: webrtc::signalling::message::Peer { id: 2, pos: Pos { x: 1, y: 0 } },
                peers: vec![webrtc::signalling::message::Peer { id: 1, pos: Pos { x: 0, y: 0 } }],
            },
            &heard(1, "offer"),
            &ServerMessage::MovePeer { peer: 1, pos: Pos { x: 7, y: 8 } },
            &ServerMessage::AddPeer {
                peer: webrtc::signalling::message::Peer { id: 3, pos: Pos { x: 2, y: 0 } },
            },
        ]
    );
}

#[test]
fn a_connection_speaks_only_under_its_own_id() {
    let mut hub = Hub::new();
    let a = hub.accept();
    let b = hub.accept();
    hub.frame(a, say(2, "one"));
    hub.frame(b, say(1, "two"));
    hub.frame(b, say(2, "to myself"));
    assert_eq!(hub.stream(1).last(), Some(&&heard(2, "two")));
    assert_eq!(hub.stream(2)[1], &heard(1, "one"));
    assert_eq!(hub.stream(2)[2], &heard(2, "to myself"));
}

#[test]
fn a_stopped_connection_sends_nothing_more() {
    let mut hub = Hub::new();
    let a = hub.accept();
    let b = hub.accept();
    hub.frame(a, Inbound::Close);
    let before = hub.sent.len();
    hub.frame(a, say(2, "ignored"));
    hub.frame(a, Inbound::Message(ClientMessage::Move { pos: Pos { x: 1, y: 1 } }));
    assert_eq!(hub.sent.len(), before);
    hub.stop(a);
    assert_eq!(hub.sent.len(), before + 1);
    assert_eq!(hub.sent[before], Delivery { to: 2, message: ServerMessage::RemovePeer { peer: 1 } });
    hub.stop(a);
    assert_eq!(hub.sent.len(), before + 1);
    hub.stop(b);
    assert_eq!(hub.sent.len(), before + 1);
}
