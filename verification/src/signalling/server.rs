//! The registry of connected peers and the handlers that act on it.
//!
//! A [`Server`] owns one record per connected peer, in a map keyed by id, and
//! keeps the ids in the order of joining beside it. Its handlers change the
//! registry and return the messages to send, each with the id of the peer it
//! is for; whoever owns the connections sends them, through the handle that
//! [`Server::addr`] gives for that id.

use crate::signalling::message::{Peer, PeerMessage, Pos, ServerMessage, ServerMessageView};
use crate::signalling::roster::{
    all_finite, directed, fan_out, index_of, is_full, lemma_without_absent,
    lemma_without_present, next_id, present, step, well_formed, with_move, within, without,
    DeliveryView, Event,
};
use std::collections::HashMap;
use vstd::prelude::*;
use vstd::std_specs::hash::*;

verus! {

broadcast use group_hash_axioms;

/// One message on its way to the peer `to`.
#[derive(Debug, PartialEq)]
pub struct Delivery {
    pub to: usize,
    pub message: ServerMessage,
}

impl View for Delivery {
    type V = DeliveryView;

    open spec fn view(&self) -> DeliveryView {
        DeliveryView { to: self.to, message: self.message@ }
    }
}

impl DeepView for Delivery {
    type V = DeliveryView;

    open spec fn deep_view(&self) -> DeliveryView {
        self@
    }
}

/// The record of one connected peer: where it stands, and the handle
/// through which messages reach its connection.
struct Client<A> {
    pos: Pos,
    addr: A,
}

/// The records of the connected peers by id, with the ids in the order of
/// joining beside them, and the largest id handed out so far.
struct Records<A> {
    clients: HashMap<usize, Client<A>>,
    order: Vec<usize>,
    issued: usize,
}

impl<A> Records<A> {
    /// Id and position of every connected peer, in the order of joining.
    spec fn roster(&self) -> Seq<Peer> {
        Seq::new(
            self.order@.len(),
            |i: int| Peer { id: self.order@[i], pos: self.clients@[self.order@[i]].pos },
        )
    }

    /// The handles of the connected peers, in the order of joining.
    spec fn addrs(&self) -> Seq<A> {
        Seq::new(self.order@.len(), |i: int| self.clients@[self.order@[i]].addr)
    }

    /// The ids in `order` are exactly the keys of `clients`, and the roster
    /// that the two make up is what a roster has to be.
    spec fn coherent(&self) -> bool {
        &&& forall|i: int|
            0 <= i < self.order@.len() ==> self.clients@.contains_key(#[trigger] self.order@[i])
        &&& forall|id: usize| #[trigger]
            self.clients@.contains_key(id) ==> present(self.roster(), id)
        &&& well_formed(self.roster())
        &&& within(self.roster(), self.issued)
        &&& all_finite(self.roster())
    }

    /// Records of nobody.
    fn empty() -> (records: Self)
        ensures
            records.coherent(),
            records.roster() == Seq::<Peer>::empty(),
            records.addrs() == Seq::<A>::empty(),
            records.issued == 0,
    {
        Records { clients: HashMap::new(), order: Vec::new(), issued: 0 }
    }
}

/// The registry: one record per connected peer, found by id, and listed in
/// the order of joining.
pub struct Server<A> {
    records: Records<A>,
}

impl<A> View for Server<A> {
    type V = Seq<Peer>;

    /// The roster: id and position of every connected peer.
    closed spec fn view(&self) -> Seq<Peer> {
        self.records.roster()
    }
}

impl<A> Server<A> {
    /// The handles of the connected peers, in roster order.
    pub closed spec fn addrs(&self) -> Seq<A> {
        self.records.addrs()
    }

    /// The handle of the peer `id`.
    pub open spec fn addr_of(&self, id: usize) -> A
        recommends
            present(self@, id),
    {
        self.addrs()[index_of(self@, id)]
    }

    /// The largest id handed out so far, or 0 when none has been.
    pub closed spec fn issued(&self) -> usize {
        self.records.issued
    }

    #[verifier::type_invariant]
    spec fn inv(&self) -> bool {
        self.records.coherent()
    }

    /// What holds of every registry: ids are positive, increasing along the
    /// roster and among those handed out, and every position is finite.
    pub open spec fn valid(&self) -> bool {
        well_formed(self@) && within(self@, self.issued()) && all_finite(self@)
    }

    /// A registry with nobody in it.
    pub fn new() -> (server: Self)
        ensures
            server@ == Seq::<Peer>::empty(),
            server.addrs() == Seq::<A>::empty(),
            server.issued() == 0,
    {
        Server { records: Records::empty() }
    }

    /// How many peers are connected.
    pub fn len(&self) -> (n: usize)
        ensures
            n == self@.len(),
            self.addrs().len() == self@.len(),
            self.valid(),
    {
        proof {
            use_type_invariant(self);
        }
        self.records.order.len()
    }

    /// The roster as it stands: id and position of every connected peer, in
    /// the order of joining.
    pub fn peers(&self) -> (peers: Vec<Peer>)
        ensures
            peers@ == self@,
    {
        proof {
            use_type_invariant(self);
        }
        let mut peers: Vec<Peer> = Vec::new();
        let mut i: usize = 0;
        while i < self.records.order.len()
            invariant
                i <= self.records.order.len(),
                self.records.coherent(),
                peers@ == self@.take(i as int),
            decreases self.records.order.len() - i,
        {
            let id = self.records.order[i];
            let pos = match self.records.clients.get(&id) {
                Some(client) => client.pos,
                None => {
                    assert(false);
                    Pos { x: 0, y: 0 }
                },
            };
            peers.push(Peer { id, pos });
            assert(self@.take(i + 1) == self@.take(i as int).push(self@[i as int]));
            i += 1;
        }
        assert(self@.take(self.records.order.len() as int) == self@);
        peers
    }

    /// Finds the place of the peer `id` in the roster by bisection: the
    /// roster is sorted by id.
    fn position(&self, id: usize) -> (at: Option<usize>)
        ensures
            self.valid(),
            match at {
                Some(i) => i < self@.len() && self@[i as int].id == id && i == index_of(self@, id),
                None => !present(self@, id),
            },
    {
        proof {
            use_type_invariant(self);
        }
        let mut lo: usize = 0;
        let mut hi: usize = self.records.order.len();
        while lo < hi
            invariant
                lo <= hi <= self.records.order.len(),
                self.valid(),
                forall|i: int| 0 <= i < lo ==> (#[trigger] self@[i]).id < id,
                forall|i: int| hi <= i < self@.len() ==> (#[trigger] self@[i]).id > id,
            decreases hi - lo,
        {
            let mid = lo + (hi - lo) / 2;
            let found = self.records.order[mid];
            if found == id {
                assert(self@[mid as int].id == id);
                return Some(mid);
            } else if found < id {
                assert(self@[mid as int].id < id);
                lo = mid + 1;
            } else {
                assert(self@[mid as int].id > id);
                hi = mid;
            }
        }
        None
    }

    /// Whether the peer `id` is connected.
    pub fn contains(&self, id: usize) -> (found: bool)
        ensures
            found == present(self@, id),
    {
        proof {
            use_type_invariant(self);
        }
        let found = self.records.clients.contains_key(&id);
        proof {
            if present(self@, id) {
                let i = index_of(self@, id);
                assert(self.records.order@[i] == id);
            }
        }
        found
    }

    /// The handle of the peer `id`, if it is connected.
    pub fn addr(&self, id: usize) -> (addr: Option<&A>)
        ensures
            match addr {
                Some(a) => present(self@, id) && *a == self.addr_of(id),
                None => !present(self@, id),
            },
    {
        proof {
            use_type_invariant(self);
            if present(self@, id) {
                let i = index_of(self@, id);
                assert(self.records.order@[i] == id);
            }
        }
        match self.records.clients.get(&id) {
            Some(client) => Some(&client.addr),
            None => None,
        }
    }

    /// Where the peer `id` stands, if it is connected.
    pub fn pos(&self, id: usize) -> (pos: Option<Pos>)
        ensures
            match pos {
                Some(p) => present(self@, id) && p == self@[index_of(self@, id)].pos,
                None => !present(self@, id),
            },
    {
        proof {
            use_type_invariant(self);
            if present(self@, id) {
                let i = index_of(self@, id);
                assert(self.records.order@[i] == id);
            }
        }
        match self.records.clients.get(&id) {
            Some(client) => Some(client.pos),
            None => None,
        }
    }

    /// Registers a newcomer for which `pos` was drawn, reachable through
    /// `addr`.
    ///
    /// The newcomer gets the id after the largest one handed out so far, an id
    /// that nobody has had before, and is appended to the roster. It starts at
    /// `pos` if that lies in the area in which newcomers start, and at the
    /// origin otherwise. Returned are its id and the `Hello` that greets it,
    /// which lists everyone who was there before. When the largest id has
    /// been handed out the registry stays as it is and nothing is returned.
    pub fn join(&mut self, pos: Pos, addr: A) -> (joined: Option<(usize, ServerMessage)>)
        ensures
            old(self).valid(),
            match joined {
                Some((id, hello)) => {
                    &&& !is_full(old(self).issued())
                    &&& id == old(self).issued() + 1
                    &&& final(self).issued() == id
                    &&& !present(old(self)@, id)
                    &&& pos.placed().spawnable()
                    &&& hello@ == (ServerMessageView::Hello {
                        state: Peer { id, pos: pos.placed() },
                        peers: old(self)@,
                    })
                    &&& final(self)@ == old(self)@.push(Peer { id, pos: pos.placed() })
                    &&& final(self).addrs() == old(self).addrs().push(addr)
                },
                None => {
                    &&& is_full(old(self).issued())
                    &&& final(self).issued() == old(self).issued()
                    &&& final(self)@ == old(self)@
                    &&& final(self).addrs() == old(self).addrs()
                },
            },
    {
        proof {
            use_type_invariant(&*self);
        }
        if self.records.issued == usize::MAX {
            return None;
        }
        let id: usize = self.records.issued + 1;
        let pos = Pos::spawn_at(pos.x, pos.y);
        let hello = ServerMessage::Hello { state: Peer { id, pos }, peers: self.peers() };
        let mut records = Records::empty();
        std::mem::swap(&mut records, &mut self.records);
        let ghost before = records;
        proof {
            if before.clients@.contains_key(id) {
                let i = choose|i: int|
                    0 <= i < before.roster().len() && (#[trigger] before.roster()[i]).id == id;
                assert(before.roster()[i].id <= before.issued);
            }
        }
        records.clients.insert(id, Client { pos, addr });
        records.order.push(id);
        records.issued = id;
        proof {
            assert forall|i: int| 0 <= i < before.order@.len() implies before.order@[i] != id by {
                assert(before.roster()[i].id <= before.issued);
            }
            assert(records.roster() == before.roster().push(Peer { id, pos }));
            assert(records.addrs() == before.addrs().push(addr));
            assert forall|other: usize| #[trigger]
                records.clients@.contains_key(other) implies present(records.roster(), other) by {
                if other == id {
                    assert(records.roster()[before.order@.len() as int].id == id);
                } else {
                    let i = choose|i: int|
                        0 <= i < before.roster().len() && (#[trigger] before.roster()[i]).id
                            == other;
                    assert(records.roster()[i].id == other);
                }
            }
        }
        self.records = records;
        Some((id, hello))
    }

    /// Removes the peer `id` and hands back its handle. Nothing changes when
    /// the peer is not connected, so leaving twice is the same as leaving
    /// once.
    pub fn leave(&mut self, id: usize) -> (left: Option<A>)
        ensures
            old(self).valid(),
            final(self)@ == without(old(self)@, id),
            final(self).issued() == old(self).issued(),
            match left {
                Some(addr) => {
                    &&& present(old(self)@, id)
                    &&& addr == old(self).addr_of(id)
                    &&& final(self).addrs() == old(self).addrs().remove(index_of(old(self)@, id))
                },
                None => {
                    &&& !present(old(self)@, id)
                    &&& final(self).addrs() == old(self).addrs()
                },
            },
    {
        match self.position(id) {
            Some(at) => {
                proof {
                    use_type_invariant(&*self);
                    lemma_without_present(self@, at as int);
                }
                let mut records = Records::empty();
                std::mem::swap(&mut records, &mut self.records);
                let ghost before = records;
                records.order.remove(at);
                let client = records.clients.remove(&id);
                proof {
                    assert forall|i: int| 0 <= i < before.order@.len() && i != at implies before.order@[i]
                        != id by {
                        if i < at {
                            assert(before.roster()[i].id < before.roster()[at as int].id);
                        } else {
                            assert(before.roster()[at as int].id < before.roster()[i].id);
                        }
                    }
                    assert(records.roster() == before.roster().remove(at as int));
                    assert(records.addrs() == before.addrs().remove(at as int));
                    assert forall|other: usize| #[trigger]
                        records.clients@.contains_key(other) implies present(
                        records.roster(),
                        other,
                    ) by {
                        let i = choose|i: int|
                            0 <= i < before.roster().len() && (#[trigger] before.roster()[i]).id
                                == other;
                        if i < at {
                            assert(records.roster()[i].id == other);
                        } else {
                            assert(records.roster()[i - 1].id == other);
                        }
                    }
                }
                self.records = records;
                match client {
                    Some(client) => Some(client.addr),
                    None => {
                        assert(false);
                        None
                    },
                }
            },
            None => {
                proof {
                    lemma_without_absent(self@, id);
                }
                None
            },
        }
    }

    /// Records that the peer `id` now stands at `pos`, and says whether it
    /// did so: there must be such a peer, and the position must be finite.
    /// Otherwise nothing changes.
    pub fn move_to(&mut self, id: usize, pos: Pos) -> (moved: bool)
        ensures
            old(self).valid(),
            final(self)@ == if pos.finite() {
                with_move(old(self)@, id, pos)
            } else {
                old(self)@
            },
            final(self).addrs() == old(self).addrs(),
            final(self).issued() == old(self).issued(),
            moved == (pos.finite() && present(old(self)@, id)),
    {
        proof {
            use_type_invariant(&*self);
        }
        if !pos.is_finite() {
            return false;
        }
        let mut records = Records::empty();
        std::mem::swap(&mut records, &mut self.records);
        let ghost before = records;
        proof {
            if present(before.roster(), id) {
                let i = index_of(before.roster(), id);
                assert(before.order@[i] == id);
            }
        }
        let moved = match records.clients.remove(&id) {
            Some(client) => {
                records.clients.insert(id, Client { pos, addr: client.addr });
                true
            },
            None => false,
        };
        proof {
            assert(records.roster() == with_move(before.roster(), id, pos));
            assert(records.addrs() == before.addrs());
            assert forall|other: usize| #[trigger]
                records.clients@.contains_key(other) implies present(records.roster(), other) by {
                let i = choose|i: int|
                    0 <= i < before.roster().len() && (#[trigger] before.roster()[i]).id == other;
                assert(records.roster()[i].id == other);
            }
        }
        self.records = records;
        moved
    }

    /// The message `message` on its way to the peer `id`, or nothing when that
    /// peer is not connected: a message for an unknown addressee is dropped.
    pub fn send_to(&self, id: usize, message: ServerMessage) -> (deliveries: Vec<Delivery>)
        ensures
            deliveries.deep_view() == directed(self@, id, message@),
    {
        let mut deliveries: Vec<Delivery> = Vec::new();
        if self.position(id).is_some() {
            deliveries.push(Delivery { to: id, message });
            assert(deliveries.deep_view() == seq![DeliveryView { to: id, message: message@ }]);
        } else {
            assert(deliveries.deep_view() == Seq::<DeliveryView>::empty());
        }
        deliveries
    }

    /// One copy of `message` on its way to every connected peer but `except`,
    /// in roster order.
    pub fn broadcast(&self, message: &ServerMessage, except: Option<usize>) -> (deliveries: Vec<
        Delivery,
    >)
        ensures
            deliveries.deep_view() == fan_out(self@, message@, except),
    {
        let mut deliveries: Vec<Delivery> = Vec::new();
        let mut i: usize = 0;
        assert(deliveries.deep_view() == fan_out(self@.take(0), message@, except)) by {
            reveal(Seq::filter);
        }
        while i < self.records.order.len()
            invariant
                i <= self.records.order.len(),
                deliveries.deep_view() == fan_out(self@.take(i as int), message@, except),
            decreases self.records.order.len() - i,
        {
            let id = self.records.order[i];
            assert(self@[i as int].id == id);
            let skip = match except {
                Some(e) => e == id,
                None => false,
            };
            let ghost before = deliveries.deep_view();
            proof {
                assert(self@.take(i + 1) == self@.take(i as int).push(self@[i as int]));
                self@.take(i as int).lemma_filter_push(
                    self@[i as int],
                    |p: Peer| Some(p.id) != except,
                );
            }
            if !skip {
                deliveries.push(Delivery { to: id, message: message.clone() });
                assert(deliveries.deep_view() == before.push(
                    DeliveryView { to: id, message: message@ },
                ));
            }
            i += 1;
        }
        assert(self@.take(self.records.order.len() as int) == self@);
        deliveries
    }

    /// A newcomer joins: it is registered under an id that nobody has had
    /// before, placed in the area in which newcomers start, greeted with
    /// `Hello`, and announced to everyone else with `AddPeer`.
    ///
    /// Returned are the newcomer's id and the messages to send, the `Hello`
    /// first. When no id is left nothing changes and nothing is returned.
    pub fn handle_join(&mut self, pos: Pos, addr: A) -> (joined: Option<(usize, Vec<Delivery>)>)
        ensures
            old(self).valid(),
            final(self)@ == step(old(self)@, old(self).issued(), Event::Join { pos }).roster,
            final(self).issued() == step(old(self)@, old(self).issued(), Event::Join { pos }).issued,
            match joined {
                Some((id, deliveries)) => {
                    &&& !is_full(old(self).issued())
                    &&& id == next_id(old(self).issued())
                    &&& !present(old(self)@, id)
                    &&& deliveries.deep_view() == step(
                        old(self)@,
                        old(self).issued(),
                        Event::Join { pos },
                    ).deliveries
                    &&& final(self).addrs() == old(self).addrs().push(addr)
                },
                None => {
                    &&& is_full(old(self).issued())
                    &&& final(self).addrs() == old(self).addrs()
                },
            },
    {
        match self.join(pos, addr) {
            Some((id, hello)) => {
                let mut deliveries: Vec<Delivery> = Vec::new();
                deliveries.push(Delivery { to: id, message: hello });
                let ghost greeting = deliveries.deep_view();
                assert(greeting == seq![DeliveryView { to: id, message: hello@ }]);
                let announce = ServerMessage::AddPeer {
                    peer: Peer { id, pos: Pos::spawn_at(pos.x, pos.y) },
                };
                let mut others = self.broadcast(&announce, Some(id));
                let ghost announced = others.deep_view();
                deliveries.append(&mut others);
                assert(deliveries.deep_view() == greeting + announced);
                Some((id, deliveries))
            },
            None => None,
        }
    }

    /// The peer `source` sends `message` to the peer that `message.peer`
    /// names: the addressee gets it with `source` written into it. When the
    /// addressee is not connected the message is dropped.
    pub fn handle_peer(&self, source: usize, message: PeerMessage) -> (deliveries: Vec<Delivery>)
        ensures
            self.valid(),
            deliveries.deep_view() == step(
                self@,
                self.issued(),
                Event::Peer { source, message },
            ).deliveries,
            step(self@, self.issued(), Event::Peer { source, message }).roster == self@,
            step(self@, self.issued(), Event::Peer { source, message }).issued == self.issued(),
    {
        proof {
            use_type_invariant(self);
        }
        let to = message.peer;
        self.send_to(to, message.forward(source))
    }

    /// The peer `msg.id` moved: its position is recorded if it is connected,
    /// and `MovePeer` goes to every connected peer, the mover included. A
    /// position that is not finite is refused: nothing changes and nothing is
    /// sent.
    pub fn handle_move(&mut self, msg: Move) -> (deliveries: Vec<Delivery>)
        ensures
            old(self).valid(),
            final(self)@ == step(
                old(self)@,
                old(self).issued(),
                Event::Move { id: msg.id, pos: msg.pos },
            ).roster,
            final(self).issued() == old(self).issued(),
            final(self).addrs() == old(self).addrs(),
            deliveries.deep_view() == step(
                old(self)@,
                old(self).issued(),
                Event::Move { id: msg.id, pos: msg.pos },
            ).deliveries,
    {
        if msg.pos.is_finite() {
            self.move_to(msg.id, msg.pos);
            let moved = ServerMessage::from(msg);
            self.broadcast(&moved, None)
        } else {
            proof {
                use_type_invariant(&*self);
            }
            let deliveries: Vec<Delivery> = Vec::new();
            assert(deliveries.deep_view() == Seq::<DeliveryView>::empty());
            deliveries
        }
    }

    /// The connection of the peer `id` ended: the peer is removed and
    /// `RemovePeer` goes to everyone who remains. For a peer that is not
    /// connected nothing happens, so cleaning up twice announces the departure
    /// once.
    pub fn handle_quit(&mut self, id: usize) -> (deliveries: Vec<Delivery>)
        ensures
            old(self).valid(),
            final(self)@ == step(old(self)@, old(self).issued(), Event::Quit { id }).roster,
            final(self).issued() == old(self).issued(),
            final(self).addrs() == if present(old(self)@, id) {
                old(self).addrs().remove(index_of(old(self)@, id))
            } else {
                old(self).addrs()
            },
            deliveries.deep_view() == step(
                old(self)@,
                old(self).issued(),
                Event::Quit { id },
            ).deliveries,
    {
        match self.leave(id) {
            Some(_) => self.broadcast(&ServerMessage::RemovePeer { peer: id }, None),
            None => {
                proof {
                    lemma_without_absent(old(self)@, id);
                }
                let deliveries: Vec<Delivery> = Vec::new();
                assert(deliveries.deep_view() == Seq::<DeliveryView>::empty());
                deliveries
            },
        }
    }
}

/// The report of a peer that it moved.
#[derive(Debug, Clone, Copy, PartialEq, Eq, Structural)]
pub struct Move {
    pub id: usize,
    pub pos: Pos,
}

impl From<Move> for ServerMessage {
    /// The `MovePeer` that tells everyone about the move.
    fn from(msg: Move) -> (message: ServerMessage) {
        ServerMessage::MovePeer { peer: msg.id, pos: msg.pos }
    }
}

impl vstd::std_specs::convert::FromSpecImpl<Move> for ServerMessage {
    open spec fn obeys_from_spec() -> bool {
        true
    }

    open spec fn from_spec(msg: Move) -> ServerMessage {
        ServerMessage::MovePeer { peer: msg.id, pos: msg.pos }
    }
}

} // verus!
