//! One connection, from the handshake to the cleanup.
//!
//! A [`Connection`] is told what happens on its socket and answers with what
//! is to be done about it. It reads no socket and sends nothing itself.

use crate::signalling::message::{ClientMessage, PeerMessage};
use crate::signalling::roster::Event;
use crate::signalling::server::Move;
use vstd::prelude::*;

verus! {

/// What arrives on the socket of a connection.
#[derive(Debug, PartialEq)]
pub enum Inbound {
    /// A text frame that holds a client message.
    Message(ClientMessage),
    /// A text frame that holds anything else.
    Malformed,
    /// A close frame.
    Close,
    /// The stream ended or could not be read.
    Failed,
    /// A frame that is not part of the protocol: ping, pong, binary.
    Other,
}

/// What a connection wants done.
#[derive(Debug, PartialEq)]
pub enum Command {
    /// Nothing.
    Nothing,
    /// Hand the message to the registry, to be relayed on behalf of `source`.
    Relay { source: usize, message: PeerMessage },
    /// Hand the move to the registry.
    Move(Move),
    /// Tell the registry that the peer `id` is gone.
    Quit { id: usize },
    /// Stop the connection, after answering the peer's close frame if `close`
    /// is set.
    Stop { close: bool },
}

/// Where a connection stands.
#[derive(Debug, Clone, Copy, PartialEq, Eq, Structural)]
pub enum Connection {
    /// Accepted, and waiting to be registered.
    Joining,
    /// Registered under `id` and relaying.
    Active { id: usize },
    /// Stopped reading; the registry has yet to be told.
    Leaving { id: usize },
    /// Nothing more will happen.
    Done,
}

/// What the registration does to a connection.
///
/// A connection that waits becomes active under the id it was given, or
/// stops if it was given none. A connection that ended while it waited hands
/// the id back at once. Otherwise nothing happens.
pub open spec fn register(connection: Connection, id: Option<usize>) -> (Connection, Command) {
    match (connection, id) {
        (Connection::Joining, Some(id)) => (Connection::Active { id }, Command::Nothing),
        (Connection::Joining, None) => (Connection::Done, Command::Stop { close: false }),
        (Connection::Done, Some(id)) => (Connection::Done, Command::Quit { id }),
        _ => (connection, Command::Nothing),
    }
}

/// What a frame does to a connection.
///
/// Only an active connection reacts. A client message goes to the registry
/// under the connection's own id. A close frame, a frame that cannot be read,
/// a text frame that is no client message and a move to a position that is
/// not finite end the relaying; only the close frame is answered. Any other
/// frame is ignored.
pub open spec fn react(connection: Connection, frame: Inbound) -> (Connection, Command) {
    match connection {
        Connection::Active { id } => match frame {
            Inbound::Message(ClientMessage::Peer { message }) => (
                connection,
                Command::Relay { source: id, message },
            ),
            Inbound::Message(ClientMessage::Move { pos }) => if pos.finite() {
                (connection, Command::Move(Move { id, pos }))
            } else {
                (Connection::Leaving { id }, Command::Stop { close: false })
            },
            Inbound::Malformed => (Connection::Leaving { id }, Command::Stop { close: false }),
            Inbound::Close => (Connection::Leaving { id }, Command::Stop { close: true }),
            Inbound::Failed => (Connection::Leaving { id }, Command::Stop { close: false }),
            Inbound::Other => (connection, Command::Nothing),
        },
        _ => (connection, Command::Nothing),
    }
}

/// What the cleanup does to a connection: a registered one tells the registry
/// that its peer is gone, once.
pub open spec fn finish(connection: Connection) -> (Connection, Command) {
    match connection {
        Connection::Active { id } => (Connection::Done, Command::Quit { id }),
        Connection::Leaving { id } => (Connection::Done, Command::Quit { id }),
        _ => (Connection::Done, Command::Nothing),
    }
}

/// The request that a command puts to the registry, if it puts one.
pub open spec fn request(command: Command) -> Option<Event> {
    match command {
        Command::Relay { source, message } => Some(Event::Peer { source, message }),
        Command::Move(msg) => Some(Event::Move { id: msg.id, pos: msg.pos }),
        Command::Quit { id } => Some(Event::Quit { id }),
        _ => None,
    }
}

impl Connection {
    /// A connection that has just been accepted.
    pub fn new() -> (connection: Connection)
        ensures
            connection == Connection::Joining,
    {
        Connection::Joining
    }

    /// The id under which the connection is registered, if it is.
    pub open spec fn registered(self) -> Option<usize> {
        match self {
            Connection::Active { id } => Some(id),
            Connection::Leaving { id } => Some(id),
            _ => None,
        }
    }

    /// The id under which the connection is registered, if it is.
    pub fn id(&self) -> (id: Option<usize>)
        ensures
            id == self.registered(),
    {
        match self {
            Connection::Active { id } => Some(*id),
            Connection::Leaving { id } => Some(*id),
            _ => None,
        }
    }

    /// The registry answered the request to join, with the id that it
    /// assigned or with none.
    pub fn joined(&mut self, id: Option<usize>) -> (command: Command)
        ensures
            (*final(self), command) == register(*old(self), id),
    {
        match (*self, id) {
            (Connection::Joining, Some(id)) => {
                *self = Connection::Active { id };
                Command::Nothing
            },
            (Connection::Joining, None) => {
                *self = Connection::Done;
                Command::Stop { close: false }
            },
            (Connection::Done, Some(id)) => Command::Quit { id },
            _ => Command::Nothing,
        }
    }

    /// A frame arrived.
    pub fn handle(&mut self, frame: Inbound) -> (command: Command)
        ensures
            (*final(self), command) == react(*old(self), frame),
    {
        match *self {
            Connection::Active { id } => match frame {
                Inbound::Message(ClientMessage::Peer { message }) => Command::Relay {
                    source: id,
                    message,
                },
                Inbound::Message(ClientMessage::Move { pos }) => {
                    if pos.is_finite() {
                        Command::Move(Move { id, pos })
                    } else {
                        *self = Connection::Leaving { id };
                        Command::Stop { close: false }
                    }
                },
                Inbound::Close => {
                    *self = Connection::Leaving { id };
                    Command::Stop { close: true }
                },
                Inbound::Malformed | Inbound::Failed => {
                    *self = Connection::Leaving { id };
                    Command::Stop { close: false }
                },
                Inbound::Other => Command::Nothing,
            },
            _ => Command::Nothing,
        }
    }

    /// The connection is being torn down.
    pub fn stopping(&mut self) -> (command: Command)
        ensures
            (*final(self), command) == finish(*old(self)),
    {
        let command = match *self {
            Connection::Active { id } => Command::Quit { id },
            Connection::Leaving { id } => Command::Quit { id },
            _ => Command::Nothing,
        };
        *self = Connection::Done;
        command
    }
}

} // verus!
