//! The roster as a mathematical object, and what each request does to it.
//!
//! A roster is the sequence of connected peers in the order in which they
//! joined. Ids are handed out in increasing order and never twice, so the
//! sequence is also sorted by id. Beside the roster the hub remembers the
//! largest id that it has handed out so far. Everything here is ghost code: [`crate::signalling::server`]
//! holds the executable registry that behaves this way.

use crate::signalling::message::{Peer, PeerMessage, Pos, ServerMessageView};
use vstd::prelude::*;

verus! {

/// Ids are positive and strictly increasing along the roster; in particular no
/// id occurs twice.
pub open spec fn well_formed(roster: Seq<Peer>) -> bool {
    &&& forall|i: int| 0 <= i < roster.len() ==> (#[trigger] roster[i]).id >= 1
    &&& forall|i: int, j: int|
        0 <= i < j < roster.len() ==> (#[trigger] roster[i]).id < (#[trigger] roster[j]).id
}

/// Every id on the roster has been handed out: none is larger than `issued`,
/// the largest id handed out so far.
pub open spec fn within(roster: Seq<Peer>, issued: usize) -> bool {
    forall|i: int| 0 <= i < roster.len() ==> (#[trigger] roster[i]).id <= issued
}

/// Every peer on the roster stands at a finite position.
pub open spec fn all_finite(roster: Seq<Peer>) -> bool {
    forall|i: int| 0 <= i < roster.len() ==> (#[trigger] roster[i]).pos.finite()
}

/// Whether a peer with this id is connected.
pub open spec fn present(roster: Seq<Peer>, id: usize) -> bool {
    exists|i: int| 0 <= i < roster.len() && (#[trigger] roster[i]).id == id
}

/// Where in the roster the peer `id` stands.
pub open spec fn index_of(roster: Seq<Peer>, id: usize) -> int
    recommends
        present(roster, id),
{
    choose|i: int| 0 <= i < roster.len() && (#[trigger] roster[i]).id == id
}

/// No further id can be handed out: the largest one has been.
pub open spec fn is_full(issued: usize) -> bool {
    issued == usize::MAX
}

/// The id of the next peer to join: one more than the largest id handed out
/// so far, and so an id that nobody has had before.
pub open spec fn next_id(issued: usize) -> usize
    recommends
        !is_full(issued),
{
    (issued + 1) as usize
}

/// The roster without the peer `id`.
pub open spec fn without(roster: Seq<Peer>, id: usize) -> Seq<Peer> {
    roster.filter(|p: Peer| p.id != id)
}

/// The roster with the peer `id`, if there is one, standing at `pos`.
pub open spec fn with_move(roster: Seq<Peer>, id: usize, pos: Pos) -> Seq<Peer> {
    roster.map_values(
        |p: Peer|
            if p.id == id {
                Peer { id, pos }
            } else {
                p
            },
    )
}

/// One message on its way to one peer.
pub struct DeliveryView {
    pub to: usize,
    pub message: ServerMessageView,
}

/// One copy of `message` for every peer of the roster but `except`, in roster
/// order.
pub open spec fn fan_out(
    roster: Seq<Peer>,
    message: ServerMessageView,
    except: Option<usize>,
) -> Seq<DeliveryView> {
    roster.filter(|p: Peer| Some(p.id) != except).map_values(
        |p: Peer| DeliveryView { to: p.id, message },
    )
}

/// `message` for the peer `id` if it is connected, and nothing otherwise.
pub open spec fn directed(roster: Seq<Peer>, id: usize, message: ServerMessageView) -> Seq<
    DeliveryView,
> {
    if present(roster, id) {
        seq![DeliveryView { to: id, message }]
    } else {
        Seq::empty()
    }
}

/// What a relayed message looks like when it leaves the hub: the payload is
/// the one that came in, and `peer` names the sender.
pub open spec fn relayed(source: usize, message: PeerMessage) -> ServerMessageView {
    ServerMessageView::PeerMessage { message: PeerMessage { peer: source, data: message.data } }
}

/// A request that reaches the hub.
pub enum Event {
    /// A new connection asks to join; `pos` was drawn for it.
    Join { pos: Pos },
    /// The peer `source` sends `message` to the peer `message.peer`.
    Peer { source: usize, message: PeerMessage },
    /// The peer `id` reports that it moved to `pos`.
    Move { id: usize, pos: Pos },
    /// The connection of the peer `id` ended.
    Quit { id: usize },
}

/// The roster and the largest id handed out after a request, and the
/// messages that the request caused, in the order in which they are sent.
pub struct Outcome {
    pub roster: Seq<Peer>,
    pub issued: usize,
    pub deliveries: Seq<DeliveryView>,
}

/// What the hub does with one request, given the roster and the largest id
/// handed out so far.
///
/// * `Join`: the newcomer gets the next id, which nobody has had before, and
///   starts where it was drawn if that lies in the area for newcomers, else
///   at the origin. It is greeted with `Hello` listing everyone else, and is
///   announced to everyone else with `AddPeer`. When no id is left nothing
///   happens.
/// * `Peer`: the message goes to its addressee with the sender written into
///   it, or nowhere when the addressee is not connected.
/// * `Move`: the position is recorded if the peer is connected, and `MovePeer`
///   goes to everyone, the mover included. A position that is not finite is
///   refused: nothing happens.
/// * `Quit`: a connected peer is removed and `RemovePeer` goes to everyone who
///   remains; for anyone else nothing happens.
pub open spec fn step(roster: Seq<Peer>, issued: usize, event: Event) -> Outcome {
    match event {
        Event::Join { pos } => {
            if is_full(issued) {
                Outcome { roster, issued, deliveries: Seq::empty() }
            } else {
                let state = Peer { id: next_id(issued), pos: pos.placed() };
                let after = roster.push(state);
                Outcome {
                    roster: after,
                    issued: state.id,
                    deliveries: seq![
                        DeliveryView {
                            to: state.id,
                            message: ServerMessageView::Hello { state, peers: roster },
                        },
                    ] + fan_out(after, ServerMessageView::AddPeer { peer: state }, Some(state.id)),
                }
            }
        },
        Event::Peer { source, message } => Outcome {
            roster,
            issued,
            deliveries: directed(roster, message.peer, relayed(source, message)),
        },
        Event::Move { id, pos } => {
            if pos.finite() {
                let after = with_move(roster, id, pos);
                Outcome {
                    roster: after,
                    issued,
                    deliveries: fan_out(
                        after,
                        ServerMessageView::MovePeer { peer: id, pos },
                        None,
                    ),
                }
            } else {
                Outcome { roster, issued, deliveries: Seq::empty() }
            }
        },
        Event::Quit { id } => {
            if present(roster, id) {
                let after = without(roster, id);
                Outcome {
                    roster: after,
                    issued,
                    deliveries: fan_out(after, ServerMessageView::RemovePeer { peer: id }, None),
                }
            } else {
                Outcome { roster, issued, deliveries: Seq::empty() }
            }
        },
    }
}

/// Filtering keeps a sequence as it is when every element passes.
pub proof fn lemma_filter_keeps_all<T>(s: Seq<T>, pred: spec_fn(T) -> bool)
    requires
        forall|i: int| 0 <= i < s.len() ==> pred(#[trigger] s[i]),
    ensures
        s.filter(pred) == s,
    decreases s.len(),
{
    reveal(Seq::filter);
    if s.len() > 0 {
        lemma_filter_keeps_all(s.drop_last(), pred);
        assert(s.drop_last().push(s.last()) == s);
    }
}

/// Filtering out the one element that fails removes it and nothing else.
pub proof fn lemma_filter_drops_one<T>(s: Seq<T>, pred: spec_fn(T) -> bool, at: int)
    requires
        0 <= at < s.len(),
        forall|i: int| 0 <= i < s.len() ==> (pred(#[trigger] s[i]) <==> i != at),
    ensures
        s.filter(pred) == s.remove(at),
    decreases s.len(),
{
    reveal(Seq::filter);
    if at == s.len() - 1 {
        lemma_filter_keeps_all(s.drop_last(), pred);
        assert(s.remove(at) == s.drop_last());
    } else {
        lemma_filter_drops_one(s.drop_last(), pred, at);
        assert(s.drop_last().remove(at).push(s.last()) == s.remove(at));
    }
}

/// Leaving removes exactly the entry of the peer that leaves.
pub proof fn lemma_without_present(roster: Seq<Peer>, at: int)
    requires
        well_formed(roster),
        0 <= at < roster.len(),
    ensures
        without(roster, roster[at].id) == roster.remove(at),
{
    let id = roster[at].id;
    let pred = |p: Peer| p.id != id;
    assert forall|i: int| 0 <= i < roster.len() implies (pred(#[trigger] roster[i]) <==> i != at) by {
        if i < at {
            assert(roster[i].id < roster[at].id);
        } else if at < i {
            assert(roster[at].id < roster[i].id);
        }
    }
    lemma_filter_drops_one(roster, pred, at);
}

/// Leaving changes nothing when the peer is not connected.
pub proof fn lemma_without_absent(roster: Seq<Peer>, id: usize)
    requires
        !present(roster, id),
    ensures
        without(roster, id) == roster,
{
    lemma_filter_keeps_all(roster, |p: Peer| p.id != id);
}

/// A well-formed roster stays well-formed under every request, its ids stay
/// among those handed out, and the largest id handed out never goes down.
pub proof fn lemma_step_well_formed(roster: Seq<Peer>, issued: usize, event: Event)
    requires
        well_formed(roster),
        within(roster, issued),
    ensures
        well_formed(step(roster, issued, event).roster),
        within(step(roster, issued, event).roster, step(roster, issued, event).issued),
        issued <= step(roster, issued, event).issued,
{
    match event {
        Event::Join { pos } => {},
        Event::Peer { source, message } => {},
        Event::Move { id, pos } => {},
        Event::Quit { id } => {
            if present(roster, id) {
                let at = choose|i: int| 0 <= i < roster.len() && (#[trigger] roster[i]).id == id;
                lemma_without_present(roster, at);
            }
        },
    }
}

/// Positions stay finite under every request: a newcomer starts in the area
/// for newcomers, and a move to a position that is not finite is refused.
pub proof fn lemma_step_all_finite(roster: Seq<Peer>, issued: usize, event: Event)
    requires
        well_formed(roster),
        all_finite(roster),
    ensures
        all_finite(step(roster, issued, event).roster),
{
    match event {
        Event::Join { pos } => {},
        Event::Peer { source, message } => {},
        Event::Move { id, pos } => {},
        Event::Quit { id } => {
            if present(roster, id) {
                let at = choose|i: int| 0 <= i < roster.len() && (#[trigger] roster[i]).id == id;
                lemma_without_present(roster, at);
            }
        },
    }
}

} // verus!
