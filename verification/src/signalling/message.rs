//! Messages exchanged between the hub and its peers.
//!
//! Payloads travel as `serde_json::Value`. The hub never looks inside one: it
//! hands a payload on exactly as it arrived.

use vstd::prelude::*;

verus! {

/// `serde_json::Value`, declared so that it can be carried through verified
/// code. Nothing is assumed about what a value holds.
#[verifier::external_type_specification]
#[verifier::external_body]
pub struct ExValue(serde_json::Value);

/// Copies a payload with `serde_json::Value::clone`, the `Clone` impl that
/// `serde_json` derives for its value tree. The contract claims that the copy
/// is equal to the value it was made from.
#[verifier::external_body]
pub(crate) fn clone_value(value: &serde_json::Value) -> (copy: serde_json::Value)
    ensures
        copy == *value,
{
    value.clone()
}

/// A point of the plane that the peers share.
///
/// Each coordinate holds the bit pattern of an IEEE 754 single-precision
/// number. The hub stores and forwards coordinates; it never computes with
/// them.
#[derive(Debug, Clone, Copy, PartialEq, Eq, Structural)]
pub struct Pos {
    pub x: u32,
    pub y: u32,
}

/// The bit pattern of 800, the width of the area in which newcomers start.
pub const SPAWN_WIDTH: u32 = 0x4448_0000;

/// The bit pattern of 600, the height of the area in which newcomers start.
pub const SPAWN_HEIGHT: u32 = 0x4416_0000;

impl Pos {
    /// Whether the position lies in the area in which newcomers start: `x` in
    /// `[0, 800)` and `y` in `[0, 600)`, both with a clear sign bit.
    ///
    /// Among bit patterns with a clear sign bit the larger pattern is the
    /// larger number, and every pattern with the sign bit set is larger than
    /// any without, so each bound is one comparison of patterns.
    pub open spec fn spawnable(self) -> bool {
        self.x < SPAWN_WIDTH && self.y < SPAWN_HEIGHT
    }

    /// Whether the position lies in the area in which newcomers start.
    pub fn in_spawn_area(&self) -> (inside: bool)
        ensures
            inside == self.spawnable(),
    {
        self.x < SPAWN_WIDTH && self.y < SPAWN_HEIGHT
    }

    /// Whether both coordinates are finite numbers: neither an infinity nor
    /// not a number.
    ///
    /// A pattern stands for a finite number when its exponent bits are not
    /// all set, that is when it lies below the pattern of the infinity of
    /// its sign.
    pub open spec fn finite(self) -> bool {
        finite_bits(self.x) && finite_bits(self.y)
    }

    /// Whether both coordinates are finite numbers.
    pub fn is_finite(&self) -> (finite: bool)
        ensures
            finite == self.finite(),
    {
        let x = self.x;
        let y = self.y;
        (x < POSITIVE_INFINITY || (SIGN_BIT <= x && x < NEGATIVE_INFINITY)) && (y
            < POSITIVE_INFINITY || (SIGN_BIT <= y && y < NEGATIVE_INFINITY))
    }

    /// Where a newcomer starts when `self` was drawn for it: at `self` if
    /// that lies in the area in which newcomers start, and at the origin
    /// otherwise.
    pub open spec fn placed(self) -> Pos {
        if self.spawnable() {
            self
        } else {
            Pos { x: 0, y: 0 }
        }
    }

    /// The position at which a newcomer starts when the coordinates `x` and
    /// `y` were drawn for it: the drawn position if it lies in the area in
    /// which newcomers start, and the origin otherwise.
    pub fn spawn_at(x: u32, y: u32) -> (pos: Pos)
        ensures
            pos == (Pos { x, y }).placed(),
            pos.spawnable(),
            pos.finite(),
    {
        let drawn = Pos { x, y };
        if drawn.in_spawn_area() {
            drawn
        } else {
            Pos { x: 0, y: 0 }
        }
    }
}

/// The lowest bit pattern with the sign bit set: negative zero.
pub const SIGN_BIT: u32 = 0x8000_0000;

/// The bit pattern of positive infinity.
pub const POSITIVE_INFINITY: u32 = 0x7f80_0000;

/// The bit pattern of negative infinity.
pub const NEGATIVE_INFINITY: u32 = 0xff80_0000;

/// Whether a bit pattern stands for a finite single-precision number.
pub open spec fn finite_bits(bits: u32) -> bool {
    bits < POSITIVE_INFINITY || (SIGN_BIT <= bits && bits < NEGATIVE_INFINITY)
}

impl Default for Pos {
    /// The origin: both coordinates are positive zero.
    fn default() -> (pos: Pos)
        ensures
            pos == (Pos { x: 0, y: 0 }),
    {
        Pos { x: 0, y: 0 }
    }
}

/// What the hub tells one peer about another: its id and where it stands.
#[derive(Debug, Clone, Copy, PartialEq, Eq, Structural)]
pub struct Peer {
    pub id: usize,
    pub pos: Pos,
}

/// The payload of a signalling message, tagged by what it negotiates.
#[derive(Debug, PartialEq)]
pub enum PeerMessageData {
    ICECandidate { data: serde_json::Value },
    SDP { data: serde_json::Value },
}

impl Clone for PeerMessageData {
    /// A copy with the same tag and an equal payload.
    fn clone(&self) -> (copy: PeerMessageData)
        ensures
            copy == *self,
    {
        match self {
            PeerMessageData::ICECandidate { data } => PeerMessageData::ICECandidate {
                data: clone_value(data),
            },
            PeerMessageData::SDP { data } => PeerMessageData::SDP { data: clone_value(data) },
        }
    }
}

/// A signalling payload together with the peer at the other end.
///
/// On its way to the hub `peer` names the addressee; on its way out of the
/// hub it names the sender.
#[derive(Debug, PartialEq)]
pub struct PeerMessage {
    pub peer: usize,
    pub data: PeerMessageData,
}

impl PeerMessage {
    /// Turns a message received from `source` into the message that the hub
    /// delivers to the addressee: the payload is kept and `peer` now names
    /// `source`.
    pub fn forward(self, source: usize) -> (message: ServerMessage)
        ensures
            message@ == (ServerMessageView::PeerMessage {
                message: PeerMessage { peer: source, data: self.data },
            }),
    {
        ServerMessage::PeerMessage { message: PeerMessage { peer: source, data: self.data } }
    }
}

impl Clone for PeerMessage {
    /// A copy with the same `peer` and an equal payload.
    fn clone(&self) -> (copy: PeerMessage)
        ensures
            copy == *self,
    {
        PeerMessage { peer: self.peer, data: self.data.clone() }
    }
}

/// What the hub sends to a peer.
#[allow(inconsistent_fields)]
#[derive(Debug, PartialEq)]
pub enum ServerMessage {
    /// The first message on every connection: the peer's own id and position,
    /// and everyone who is already there.
    Hello { state: Peer, peers: Vec<Peer> },
    /// Somebody joined.
    AddPeer { peer: Peer },
    /// Somebody left.
    RemovePeer { peer: usize },
    /// Somebody moved.
    MovePeer { peer: usize, pos: Pos },
    /// A relayed signalling message; `message.peer` is the sender.
    PeerMessage { message: PeerMessage },
}

/// The mathematical content of a [`ServerMessage`].
#[allow(inconsistent_fields)]
pub enum ServerMessageView {
    Hello { state: Peer, peers: Seq<Peer> },
    AddPeer { peer: Peer },
    RemovePeer { peer: usize },
    MovePeer { peer: usize, pos: Pos },
    PeerMessage { message: PeerMessage },
}

impl View for ServerMessage {
    type V = ServerMessageView;

    open spec fn view(&self) -> ServerMessageView {
        match *self {
            ServerMessage::Hello { state, peers } => ServerMessageView::Hello {
                state,
                peers: peers@,
            },
            ServerMessage::AddPeer { peer } => ServerMessageView::AddPeer { peer },
            ServerMessage::RemovePeer { peer } => ServerMessageView::RemovePeer { peer },
            ServerMessage::MovePeer { peer, pos } => ServerMessageView::MovePeer { peer, pos },
            ServerMessage::PeerMessage { message } => ServerMessageView::PeerMessage { message },
        }
    }
}

impl DeepView for ServerMessage {
    type V = ServerMessageView;

    open spec fn deep_view(&self) -> ServerMessageView {
        self@
    }
}

impl Clone for ServerMessage {
    /// A copy with the same content.
    fn clone(&self) -> (copy: ServerMessage)
        ensures
            copy@ == self@,
    {
        match self {
            ServerMessage::Hello { state, peers } => {
                let mut copied: Vec<Peer> = Vec::new();
                let mut i: usize = 0;
                while i < peers.len()
                    invariant
                        i <= peers.len(),
                        copied@ == peers@.take(i as int),
                    decreases peers.len() - i,
                {
                    copied.push(peers[i]);
                    i += 1;
                }
                assert(peers@.take(peers.len() as int) == peers@);
                ServerMessage::Hello { state: *state, peers: copied }
            },
            ServerMessage::AddPeer { peer } => ServerMessage::AddPeer { peer: *peer },
            ServerMessage::RemovePeer { peer } => ServerMessage::RemovePeer { peer: *peer },
            ServerMessage::MovePeer { peer, pos } => ServerMessage::MovePeer {
                peer: *peer,
                pos: *pos,
            },
            ServerMessage::PeerMessage { message } => ServerMessage::PeerMessage {
                message: message.clone(),
            },
        }
    }
}

/// What a peer sends to the hub.
#[derive(Debug, PartialEq)]
pub enum ClientMessage {
    /// A signalling message for the peer that `message.peer` names.
    Peer { message: PeerMessage },
    /// The sender's new position.
    Move { pos: Pos },
}

impl Clone for ClientMessage {
    /// A copy with the same content.
    fn clone(&self) -> (copy: ClientMessage)
        ensures
            copy == *self,
    {
        match self {
            ClientMessage::Peer { message } => ClientMessage::Peer { message: message.clone() },
            ClientMessage::Move { pos } => ClientMessage::Move { pos: *pos },
        }
    }
}

} // verus!
