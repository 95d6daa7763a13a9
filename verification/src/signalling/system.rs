//! The registry together with its connections.
//!
//! Connections are numbered in the order in which they are accepted. Each
//! action concerns one connection: it is accepted, a frame arrives on it, or
//! it is torn down. What the connection then asks of the registry is handled
//! before the next action. Everything here is ghost code, built from
//! [`crate::signalling::session`] and [`crate::signalling::roster`].

use crate::signalling::message::Pos;
use crate::signalling::roster::{is_full, next_id, present, Event};
use crate::signalling::session::{finish, react, register, request, Command, Connection, Inbound};
use crate::signalling::trace::{
    known, lemma_next_id_is_new, lemma_present_after_step, lemma_run_well_formed,
    only_the_connected_send, received, run, theorem_relayed_sender_is_known,
};
use vstd::prelude::*;

verus! {

/// Something that happens to one connection.
pub enum Action {
    /// A new connection is accepted and joins at `pos`.
    Accept { pos: Pos },
    /// A frame arrives on the connection number `connection`.
    Frame { connection: int, frame: Inbound },
    /// The connection number `connection` is torn down.
    Stop { connection: int },
}

/// Where every connection stands, and the requests that the registry has
/// handled so far. The roster is the one that those requests lead to.
pub struct System {
    pub connections: Seq<Connection>,
    pub events: Seq<Event>,
}

/// The system once the connection number `connection` has taken a step: the
/// connection is in its new state, and the registry has handled the request
/// that the connection's command puts to it, if it puts one.
pub open spec fn submit(system: System, connection: int, step: (Connection, Command)) -> System {
    System {
        connections: system.connections.update(connection, step.0),
        events: match request(step.1) {
            Some(event) => system.events.push(event),
            None => system.events,
        },
    }
}

/// The system after one action. An action on a connection that does not
/// exist changes nothing.
pub open spec fn act(system: System, action: Action) -> System {
    match action {
        Action::Accept { pos } => {
            let issued = run(system.events).issued;
            let id = if is_full(issued) {
                None
            } else {
                Some(next_id(issued))
            };
            System {
                connections: system.connections.push(register(Connection::Joining, id).0),
                events: system.events.push(Event::Join { pos }),
            }
        },
        Action::Frame { connection, frame } => {
            if 0 <= connection < system.connections.len() {
                submit(system, connection, react(system.connections[connection], frame))
            } else {
                system
            }
        },
        Action::Stop { connection } => {
            if 0 <= connection < system.connections.len() {
                submit(system, connection, finish(system.connections[connection]))
            } else {
                system
            }
        },
    }
}

/// The system after a sequence of actions, starting with no connection.
pub open spec fn play(actions: Seq<Action>) -> System
    decreases actions.len(),
{
    if actions.len() == 0 {
        System { connections: Seq::empty(), events: Seq::empty() }
    } else {
        act(play(actions.drop_last()), actions.last())
    }
}

/// The registry and the connections agree:
///
/// * a connection that is registered under an id has its peer on the roster;
/// * no two connections are registered under the same id;
/// * every peer on the roster has a connection that is registered under its
///   id;
/// * every message that the registry was asked to relay came from a peer
///   that was on the roster at that moment.
pub open spec fn consistent(system: System) -> bool {
    let roster = run(system.events).roster;
    let connections = system.connections;
    &&& forall|i: int|
        0 <= i < connections.len() ==> ((#[trigger] connections[i]).registered() matches Some(id)
            ==> present(roster, id))
    &&& forall|i: int, j: int|
        0 <= i < j < connections.len() && (#[trigger] connections[i]).registered() is Some ==> (
        #[trigger] connections[j]).registered() != connections[i].registered()
    &&& forall|id: usize| #[trigger]
        present(roster, id) ==> exists|i: int|
            0 <= i < connections.len() && (#[trigger] connections[i]).registered() == Some(id)
    &&& only_the_connected_send(system.events)
}

/// One more request, which if it is a message comes from a peer on the
/// roster, and still every message came from a peer on the roster.
proof fn lemma_senders_after_request(events: Seq<Event>, event: Event)
    requires
        only_the_connected_send(events),
        event matches Event::Peer { source, message } ==> present(run(events).roster, source),
    ensures
        only_the_connected_send(events.push(event)),
{
    let longer = events.push(event);
    assert forall|at: int| 0 <= at < longer.len() implies (#[trigger] longer[at] matches Event::Peer {
        source,
        message,
    } ==> present(run(longer.take(at)).roster, source)) by {
        if at < events.len() {
            assert(longer.take(at) == events.take(at));
            assert(longer[at] == events[at]);
        } else {
            assert(longer.take(at) == events);
        }
    }
}

/// A consistent system is still consistent after a connection has taken a
/// step of its own: reacted to a frame, or been torn down.
proof fn lemma_submit_consistent(system: System, connection: int, step: (Connection, Command))
    requires
        consistent(system),
        0 <= connection < system.connections.len(),
        step == finish(system.connections[connection]) || exists|frame: Inbound|
            step == #[trigger] react(system.connections[connection], frame),
    ensures
        consistent(submit(system, connection, step)),
{
    let before = system.connections;
    let roster = run(system.events).roster;
    let next = submit(system, connection, step);
    let after = next.connections;
    lemma_run_well_formed(system.events);
    assert(before[connection].registered() matches Some(id) ==> present(roster, id));
    match request(step.1) {
        Some(event) => {
            assert(next.events.drop_last() == system.events);
            lemma_senders_after_request(system.events, event);
            assert forall|id: usize|
                present(run(next.events).roster, id) == (present(roster, id) && !(
                event matches Event::Quit { id: gone } && gone == id)) by {
                lemma_present_after_step(roster, run(system.events).issued, event, id);
            }
        },
        None => {},
    }
    let roster_after = run(next.events).roster;
    assert forall|i: int| 0 <= i < after.len() implies ((#[trigger] after[i]).registered() matches Some(
        id,
    ) ==> present(roster_after, id)) by {
        if i != connection {
            assert(after[i] == before[i]);
            if connection < i {
                assert(before[connection].registered() is Some ==> before[i].registered()
                    != before[connection].registered());
            } else {
                assert(before[i].registered() is Some ==> before[connection].registered()
                    != before[i].registered());
            }
        }
    }
    assert forall|i: int, j: int|
        0 <= i < j < after.len() && (#[trigger] after[i]).registered() is Some implies (
    #[trigger] after[j]).registered() != after[i].registered() by {
        assert(after[i].registered() is Some ==> after[i].registered() == before[i].registered());
        assert(after[j].registered() is Some ==> after[j].registered() == before[j].registered());
    }
    assert forall|id: usize| #[trigger] present(roster_after, id) implies exists|i: int|
        0 <= i < after.len() && (#[trigger] after[i]).registered() == Some(id) by {
        assert(present(roster, id));
        let i = choose|i: int|
            0 <= i < before.len() && (#[trigger] before[i]).registered() == Some(id);
        assert(after[i].registered() == Some(id));
    }
}

/// A consistent system is still consistent after any action.
pub proof fn lemma_act_consistent(system: System, action: Action)
    requires
        consistent(system),
    ensures
        consistent(act(system, action)),
{
    let roster = run(system.events).roster;
    let issued = run(system.events).issued;
    lemma_run_well_formed(system.events);
    match action {
        Action::Accept { pos } => {
            let next = act(system, action);
            let before = system.connections;
            let after = next.connections;
            let event = Event::Join { pos };
            assert(next.events.drop_last() == system.events);
            lemma_senders_after_request(system.events, event);
            let roster_after = run(next.events).roster;
            assert forall|id: usize|
                present(roster_after, id) == (present(roster, id) || (!is_full(issued) && id
                    == next_id(issued))) by {
                lemma_present_after_step(roster, issued, event, id);
            }
            if !is_full(issued) {
                lemma_next_id_is_new(roster, issued);
            }
            assert forall|i: int| 0 <= i < after.len() implies ((#[trigger] after[i]).registered() matches Some(
                id,
            ) ==> present(roster_after, id)) by {
                if i < before.len() {
                    assert(after[i] == before[i]);
                }
            }
            assert forall|i: int, j: int|
                0 <= i < j < after.len() && (#[trigger] after[i]).registered() is Some implies (
            #[trigger] after[j]).registered() != after[i].registered() by {
                assert(after[i] == before[i]);
                if j < before.len() {
                    assert(after[j] == before[j]);
                }
            }
            assert forall|id: usize| #[trigger] present(roster_after, id) implies exists|i: int|
                0 <= i < after.len() && (#[trigger] after[i]).registered() == Some(id) by {
                if present(roster, id) {
                    let i = choose|i: int|
                        0 <= i < before.len() && (#[trigger] before[i]).registered() == Some(id);
                    assert(after[i].registered() == Some(id));
                } else {
                    assert(after[after.len() - 1].registered() == Some(id));
                }
            }
        },
        Action::Frame { connection, frame } => {
            if 0 <= connection < system.connections.len() {
                lemma_submit_consistent(
                    system,
                    connection,
                    react(system.connections[connection], frame),
                );
            }
        },
        Action::Stop { connection } => {
            if 0 <= connection < system.connections.len() {
                lemma_submit_consistent(system, connection, finish(system.connections[connection]));
            }
        },
    }
}

/// Whatever happens, the registry and the connections agree: the roster
/// holds exactly the peers of the connections that are registered, each
/// under an id of its own, and only peers on the roster have messages
/// relayed.
pub proof fn theorem_system_is_consistent(actions: Seq<Action>)
    ensures
        consistent(play(actions)),
    decreases actions.len(),
{
    if actions.len() == 0 {
        let roster = run(Seq::<Event>::empty()).roster;
        assert forall|id: usize| !present(roster, id) by {}
    } else {
        theorem_system_is_consistent(actions.drop_last());
        lemma_act_consistent(play(actions.drop_last()), actions.last());
    }
}

/// Whatever happens, a peer hears only from peers that it has as connected:
/// the sender of a message relayed to it by another peer was announced to it
/// before, by `AddPeer` or in its `Hello`, and has not been withdrawn since.
pub proof fn theorem_heard_peers_are_known(actions: Seq<Action>, to: usize, k: int)
    requires
        0 <= k < received(play(actions).events, to).len(),
        received(play(actions).events, to)[k] is PeerMessage,
        received(play(actions).events, to)[k]->PeerMessage_message.peer != to,
    ensures
        known(received(play(actions).events, to).take(k)).contains(
            received(play(actions).events, to)[k]->PeerMessage_message.peer,
        ),
{
    theorem_system_is_consistent(actions);
    theorem_relayed_sender_is_known(play(actions).events, to, k);
}

} // verus!
