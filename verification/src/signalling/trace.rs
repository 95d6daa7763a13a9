//! What a peer sees over the life of the hub.
//!
//! The hub starts with an empty roster and handles one request after another.
//! The messages that it addresses to one id, in the order in which they are
//! sent, are the stream that the connection with that id receives: no id is
//! handed out twice, so an id stands for one connection. The theorems of this
//! module hold for every sequence of requests.

use crate::signalling::message::{Peer, PeerMessage, Pos, ServerMessageView};
use crate::signalling::roster::{
    all_finite, directed, fan_out, is_full, lemma_step_all_finite, lemma_step_well_formed,
    lemma_without_present, next_id, present, relayed, step, well_formed, with_move, within,
    without, DeliveryView, Event, Outcome,
};
use vstd::prelude::*;

verus! {

/// Where the hub stands after a sequence of requests, starting with nobody
/// connected and no id handed out: the roster, the largest id handed out, and
/// every message sent so far.
pub open spec fn run(events: Seq<Event>) -> Outcome
    decreases events.len(),
{
    if events.len() == 0 {
        Outcome { roster: Seq::empty(), issued: 0, deliveries: Seq::empty() }
    } else {
        let before = run(events.drop_last());
        let last = step(before.roster, before.issued, events.last());
        Outcome {
            roster: last.roster,
            issued: last.issued,
            deliveries: before.deliveries + last.deliveries,
        }
    }
}

/// The messages among `deliveries` that are for the peer `to`, in order.
pub open spec fn stream(deliveries: Seq<DeliveryView>, to: usize) -> Seq<ServerMessageView> {
    deliveries.filter(|d: DeliveryView| d.to == to).map_values(|d: DeliveryView| d.message)
}

/// Everything that the hub has sent to the id `to` after `events`.
pub open spec fn received(events: Seq<Event>, to: usize) -> Seq<ServerMessageView> {
    stream(run(events).deliveries, to)
}

/// The message that one request causes for the peer `to`, if any. A request
/// never causes more than one message for the same peer.
pub open spec fn reaction(
    roster: Seq<Peer>,
    issued: usize,
    event: Event,
    to: usize,
) -> Option<ServerMessageView> {
    match event {
        Event::Join { pos } => {
            let state = Peer { id: next_id(issued), pos: pos.placed() };
            if is_full(issued) {
                None
            } else if to == state.id {
                Some(ServerMessageView::Hello { state, peers: roster })
            } else if present(roster, to) {
                Some(ServerMessageView::AddPeer { peer: state })
            } else {
                None
            }
        },
        Event::Peer { source, message } => {
            if to == message.peer && present(roster, to) {
                Some(relayed(source, message))
            } else {
                None
            }
        },
        Event::Move { id, pos } => {
            if pos.finite() && present(roster, to) {
                Some(ServerMessageView::MovePeer { peer: id, pos })
            } else {
                None
            }
        },
        Event::Quit { id } => {
            if present(roster, id) && present(roster, to) && to != id {
                Some(ServerMessageView::RemovePeer { peer: id })
            } else {
                None
            }
        },
    }
}

/// A sequence with the message in it, or without any.
pub open spec fn as_seq(message: Option<ServerMessageView>) -> Seq<ServerMessageView> {
    match message {
        Some(m) => seq![m],
        None => Seq::empty(),
    }
}

/// The stream of two batches sent one after the other is the stream of the
/// first followed by the stream of the second.
pub proof fn lemma_stream_concat(a: Seq<DeliveryView>, b: Seq<DeliveryView>, to: usize)
    ensures
        stream(a + b, to) == stream(a, to) + stream(b, to),
{
    Seq::filter_distributes_over_add(a, b, |d: DeliveryView| d.to == to);
}

/// One more delivery adds its message to the stream of its addressee and to
/// no other.
pub proof fn lemma_stream_push(deliveries: Seq<DeliveryView>, last: DeliveryView, to: usize)
    ensures
        stream(deliveries.push(last), to) == if last.to == to {
            stream(deliveries, to).push(last.message)
        } else {
            stream(deliveries, to)
        },
{
    deliveries.lemma_filter_push(last, |d: DeliveryView| d.to == to);
}

/// Nothing sent, nothing received.
pub proof fn lemma_stream_empty(to: usize)
    ensures
        stream(Seq::empty(), to) == Seq::<ServerMessageView>::empty(),
{
    reveal(Seq::filter);
}

/// A broadcast, seen from the roster growing by one peer.
pub proof fn lemma_fan_out_push(
    roster: Seq<Peer>,
    last: Peer,
    message: ServerMessageView,
    except: Option<usize>,
)
    ensures
        fan_out(roster.push(last), message, except) == if Some(last.id) != except {
            fan_out(roster, message, except).push(DeliveryView { to: last.id, message })
        } else {
            fan_out(roster, message, except)
        },
{
    roster.lemma_filter_push(last, |p: Peer| Some(p.id) != except);
}

/// A broadcast reaches every connected peer but the excepted one exactly
/// once, and nobody else.
pub proof fn lemma_stream_of_fan_out(
    roster: Seq<Peer>,
    message: ServerMessageView,
    except: Option<usize>,
    to: usize,
)
    requires
        well_formed(roster),
    ensures
        stream(fan_out(roster, message, except), to) == if present(roster, to) && Some(to)
            != except {
            seq![message]
        } else {
            Seq::empty()
        },
    decreases roster.len(),
{
    if roster.len() == 0 {
        reveal(Seq::filter);
        assert(fan_out(roster, message, except) == Seq::<DeliveryView>::empty());
        lemma_stream_empty(to);
    } else {
        let front = roster.drop_last();
        let last = roster.last();
        assert(front.push(last) == roster);
        lemma_stream_of_fan_out(front, message, except, to);
        lemma_fan_out_push(front, last, message, except);
        lemma_stream_push(
            fan_out(front, message, except),
            DeliveryView { to: last.id, message },
            to,
        );
        if present(front, to) {
            let at = choose|i: int| 0 <= i < front.len() && (#[trigger] front[i]).id == to;
            assert(roster[at].id == to);
            assert(roster[at].id < roster[roster.len() - 1].id);
        }
        if present(roster, to) && !present(front, to) {
            let at = choose|i: int| 0 <= i < roster.len() && (#[trigger] roster[i]).id == to;
            if at < front.len() {
                assert(front[at].id == to);
            }
        }
        if last.id == to {
            assert(roster[roster.len() - 1].id == to);
        }
    }
}

/// A directed message reaches its addressee if connected, and nobody else.
pub proof fn lemma_stream_of_directed(
    roster: Seq<Peer>,
    id: usize,
    message: ServerMessageView,
    to: usize,
)
    ensures
        stream(directed(roster, id, message), to) == if present(roster, id) && id == to {
            seq![message]
        } else {
            Seq::empty()
        },
{
    lemma_stream_empty(to);
    if present(roster, id) {
        lemma_stream_push(Seq::empty(), DeliveryView { to: id, message }, to);
        assert(Seq::<DeliveryView>::empty().push(DeliveryView { to: id, message })
            == seq![DeliveryView { to: id, message }]);
    }
}

/// Moving changes positions, not who is connected.
pub proof fn lemma_with_move_present(roster: Seq<Peer>, id: usize, pos: Pos, to: usize)
    ensures
        present(with_move(roster, id, pos), to) == present(roster, to),
{
    let after = with_move(roster, id, pos);
    if present(roster, to) {
        let at = choose|i: int| 0 <= i < roster.len() && (#[trigger] roster[i]).id == to;
        assert(after[at].id == to);
    }
    if present(after, to) {
        let at = choose|i: int| 0 <= i < after.len() && (#[trigger] after[i]).id == to;
        assert(roster[at].id == to);
    }
}

/// Who is connected once the peer `id` has left: everyone else.
pub proof fn lemma_without_present_iff(roster: Seq<Peer>, id: usize, to: usize)
    requires
        well_formed(roster),
        present(roster, id),
    ensures
        present(without(roster, id), to) == (present(roster, to) && to != id),
{
    let gone = choose|i: int| 0 <= i < roster.len() && (#[trigger] roster[i]).id == id;
    lemma_without_present(roster, gone);
    let after = roster.remove(gone);
    if present(roster, to) && to != id {
        let at = choose|i: int| 0 <= i < roster.len() && (#[trigger] roster[i]).id == to;
        if at < gone {
            assert(after[at].id == to);
        } else {
            assert(after[at - 1].id == to);
        }
    }
    if present(after, to) {
        let at = choose|i: int| 0 <= i < after.len() && (#[trigger] after[i]).id == to;
        if at < gone {
            assert(roster[at].id == to);
            assert(roster[at].id < roster[gone].id);
        } else {
            assert(roster[at + 1].id == to);
            assert(roster[gone].id < roster[at + 1].id);
        }
    }
}

/// The id of a newcomer is not in use: it is larger than every id handed
/// out so far.
pub proof fn lemma_next_id_is_new(roster: Seq<Peer>, issued: usize)
    requires
        within(roster, issued),
        !is_full(issued),
    ensures
        !present(roster, next_id(issued)),
        next_id(issued) >= 1,
{
    if present(roster, next_id(issued)) {
        let at = choose|i: int|
            0 <= i < roster.len() && (#[trigger] roster[i]).id == next_id(issued);
        assert(roster[at].id <= issued);
    }
}

/// What one request sends to one peer is what [`reaction`] says.
pub proof fn lemma_stream_of_step(roster: Seq<Peer>, issued: usize, event: Event, to: usize)
    requires
        well_formed(roster),
        within(roster, issued),
    ensures
        stream(step(roster, issued, event).deliveries, to) == as_seq(reaction(roster, issued, event, to)),
{
    lemma_stream_empty(to);
    lemma_step_well_formed(roster, issued, event);
    match event {
        Event::Join { pos } => {
            if !is_full(issued) {
                let state = Peer { id: next_id(issued), pos: pos.placed() };
                let after = roster.push(state);
                let hello = DeliveryView {
                    to: state.id,
                    message: ServerMessageView::Hello { state, peers: roster },
                };
                let announce = ServerMessageView::AddPeer { peer: state };
                lemma_next_id_is_new(roster, issued);
                lemma_stream_concat(seq![hello], fan_out(after, announce, Some(state.id)), to);
                lemma_stream_of_fan_out(after, announce, Some(state.id), to);
                lemma_stream_push(Seq::empty(), hello, to);
                assert(Seq::<DeliveryView>::empty().push(hello) == seq![hello]);
                lemma_present_after_step(roster, issued, event, to);
            }
        },
        Event::Peer { source, message } => {
            lemma_stream_of_directed(roster, message.peer, relayed(source, message), to);
        },
        Event::Move { id, pos } => {
            if pos.finite() {
                let after = with_move(roster, id, pos);
                lemma_with_move_present(roster, id, pos, to);
                lemma_stream_of_fan_out(
                    after,
                    ServerMessageView::MovePeer { peer: id, pos },
                    None,
                    to,
                );
            }
        },
        Event::Quit { id } => {
            if present(roster, id) {
                let after = without(roster, id);
                lemma_without_present_iff(roster, id, to);
                lemma_stream_of_fan_out(after, ServerMessageView::RemovePeer { peer: id }, None, to);
            }
        },
    }
}

/// Every roster that a run reaches is well-formed, and its ids are among
/// those handed out.
pub proof fn lemma_run_well_formed(events: Seq<Event>)
    ensures
        well_formed(run(events).roster),
        within(run(events).roster, run(events).issued),
    decreases events.len(),
{
    if events.len() > 0 {
        lemma_run_well_formed(events.drop_last());
        lemma_step_well_formed(
            run(events.drop_last()).roster,
            run(events.drop_last()).issued,
            events.last(),
        );
    }
}

/// One more request extends the stream of a peer by what that request sends
/// to it.
pub proof fn lemma_received_unfold(events: Seq<Event>, to: usize)
    requires
        events.len() > 0,
    ensures
        received(events, to) == received(events.drop_last(), to) + as_seq(
            reaction(
                run(events.drop_last()).roster,
                run(events.drop_last()).issued,
                events.last(),
                to,
            ),
        ),
{
    let before = run(events.drop_last());
    lemma_run_well_formed(events.drop_last());
    lemma_stream_concat(before.deliveries, step(before.roster, before.issued, events.last()).deliveries, to);
    lemma_stream_of_step(before.roster, before.issued, events.last(), to);
}

/// Whether a message tells its receiver that the peer `id` is connected.
pub open spec fn announces(message: ServerMessageView, id: usize) -> bool {
    match message {
        ServerMessageView::Hello { state, peers } => present(peers, id),
        ServerMessageView::AddPeer { peer } => peer.id == id,
        _ => false,
    }
}

/// The peers that a stream has its receiver believe connected: those listed
/// in the latest `Hello` or announced since, and not withdrawn since.
pub open spec fn known(messages: Seq<ServerMessageView>) -> Set<usize>
    decreases messages.len(),
{
    if messages.len() == 0 {
        Set::empty()
    } else {
        let before = known(messages.drop_last());
        match messages.last() {
            ServerMessageView::Hello { state, peers } => Set::new(|id: usize| present(peers, id)),
            ServerMessageView::AddPeer { peer } => before.insert(peer.id),
            ServerMessageView::RemovePeer { peer } => before.remove(peer),
            _ => before,
        }
    }
}

/// Everyone on the roster but the peer `id`.
pub open spec fn others(roster: Seq<Peer>, id: usize) -> Set<usize> {
    Set::new(|other: usize| present(roster, other) && other != id)
}

/// Whoever a stream has its receiver believe connected was announced in it.
pub proof fn lemma_known_was_announced(messages: Seq<ServerMessageView>, id: usize)
    requires
        known(messages).contains(id),
    ensures
        exists|j: int| 0 <= j < messages.len() && announces(#[trigger] messages[j], id),
    decreases messages.len(),
{
    if messages.len() > 0 {
        let at = messages.len() - 1;
        if announces(messages[at], id) {
        } else {
            lemma_known_was_announced(messages.drop_last(), id);
            let j = choose|j: int|
                0 <= j < messages.drop_last().len() && announces(
                    #[trigger] messages.drop_last()[j],
                    id,
                );
            assert(announces(messages[j], id));
        }
    }
}

/// What a peer believes after one more request, given what it believed
/// before.
proof fn lemma_known_after_step(
    roster: Seq<Peer>,
    issued: usize,
    messages: Seq<ServerMessageView>,
    event: Event,
    to: usize,
)
    requires
        well_formed(roster),
        within(roster, issued),
        present(roster, to) ==> known(messages) == others(roster, to),
    ensures
        present(step(roster, issued, event).roster, to) ==> known(
            messages + as_seq(reaction(roster, issued, event, to)),
        ) == others(step(roster, issued, event).roster, to),
{
    let after = step(roster, issued, event).roster;
    let sent = reaction(roster, issued, event, to);
    let extended = messages + as_seq(sent);
    if sent is Some {
        assert(extended.drop_last() == messages);
        assert(extended.last() == sent->0);
    } else {
        assert(extended == messages);
    }
    match event {
        Event::Join { pos } => {
            if !is_full(issued) {
                let state = Peer { id: next_id(issued), pos };
                lemma_next_id_is_new(roster, issued);
                assert forall|id: usize| present(after, id) == (present(roster, id) || id
                    == state.id) by {
                    lemma_present_after_step(roster, issued, event, id);
                }
                if present(after, to) {
                    assert(known(extended) == others(after, to));
                }
            }
        },
        Event::Peer { source, message } => {},
        Event::Move { id, pos } => {
            assert forall|other: usize| present(after, other) == present(roster, other) by {
                lemma_with_move_present(roster, id, pos, other);
            }
            if present(after, to) {
                assert(known(extended) == others(after, to));
            }
        },
        Event::Quit { id } => {
            if present(roster, id) {
                assert forall|other: usize|
                    present(after, other) == (present(roster, other) && other != id) by {
                    lemma_without_present_iff(roster, id, other);
                }
                if present(after, to) {
                    assert(known(extended) == others(after, to));
                }
            }
        },
    }
}

/// A connected peer is told exactly who else is connected: the peers that
/// its stream announced and has not withdrawn are the rest of the roster.
pub proof fn theorem_known_is_rest_of_roster(events: Seq<Event>, to: usize)
    requires
        present(run(events).roster, to),
    ensures
        known(received(events, to)) == others(run(events).roster, to),
    decreases events.len(),
{
    if events.len() == 0 {
        assert(!present(Seq::<Peer>::empty(), to));
    } else {
        let before = run(events.drop_last());
        lemma_run_well_formed(events.drop_last());
        lemma_received_unfold(events, to);
        if present(before.roster, to) {
            theorem_known_is_rest_of_roster(events.drop_last(), to);
        }
        lemma_known_after_step(
            before.roster,
            before.issued,
            received(events.drop_last(), to),
            events.last(),
            to,
        );
    }
}

/// No peer is told that somebody left without having been told before that
/// this somebody was there, by `AddPeer` or in a `Hello`; and at that moment
/// the stream still had the peer as connected.
pub proof fn theorem_removal_was_announced(events: Seq<Event>, to: usize, k: int)
    requires
        0 <= k < received(events, to).len(),
        received(events, to)[k] is RemovePeer,
    ensures
        known(received(events, to).take(k)).contains(received(events, to)[k]->RemovePeer_peer),
        exists|j: int|
            0 <= j < k && announces(
                #[trigger] received(events, to)[j],
                received(events, to)[k]->RemovePeer_peer,
            ),
    decreases events.len(),
{
    let all = received(events, to);
    let gone = all[k]->RemovePeer_peer;
    if events.len() == 0 {
        lemma_stream_empty(to);
    } else {
        let before = run(events.drop_last());
        let earlier = received(events.drop_last(), to);
        lemma_run_well_formed(events.drop_last());
        lemma_received_unfold(events, to);
        if k < earlier.len() {
            theorem_removal_was_announced(events.drop_last(), to, k);
            assert(all.take(k) == earlier.take(k));
            let j = choose|j: int| 0 <= j < k && announces(#[trigger] earlier[j], gone);
            assert(announces(all[j], gone));
        } else {
            assert(all.take(k) == earlier);
            assert(reaction(before.roster, before.issued, events.last(), to) == Some(all[k]));
            assert(present(before.roster, to));
            theorem_known_is_rest_of_roster(events.drop_last(), to);
            assert(others(before.roster, to).contains(gone));
            lemma_known_was_announced(earlier, gone);
            let j = choose|j: int|
                0 <= j < earlier.len() && announces(#[trigger] earlier[j], gone);
            assert(announces(all[j], gone));
        }
    }
}

/// Whoever is connected has received something, and the first message that
/// an id ever receives is a `Hello` that names the receiver as its own state
/// and does not list it among the peers.
pub proof fn theorem_hello_comes_first(events: Seq<Event>, to: usize)
    ensures
        present(run(events).roster, to) ==> received(events, to).len() > 0,
        received(events, to).len() > 0 ==> {
            &&& received(events, to)[0] matches ServerMessageView::Hello { state, peers }
            &&& state.id == to
            &&& !present(peers, to)
        },
    decreases events.len(),
{
    if events.len() == 0 {
        lemma_stream_empty(to);
        assert(!present(Seq::<Peer>::empty(), to));
    } else {
        let before = run(events.drop_last());
        let earlier = received(events.drop_last(), to);
        let all = received(events, to);
        lemma_run_well_formed(events.drop_last());
        lemma_received_unfold(events, to);
        theorem_hello_comes_first(events.drop_last(), to);
        lemma_present_after_step(before.roster, before.issued, events.last(), to);
        if earlier.len() > 0 {
            assert(all[0] == earlier[0]);
        } else if all.len() > 0 {
            assert(all[0] == reaction(before.roster, before.issued, events.last(), to)->0);
            if !is_full(before.issued) {
                lemma_next_id_is_new(before.roster, before.issued);
            }
        }
    }
}

/// Who is connected after a request: a newcomer is added by `Join`, a peer is
/// taken away by its `Quit`, and nothing else changes who is there.
pub proof fn lemma_present_after_step(roster: Seq<Peer>, issued: usize, event: Event, to: usize)
    requires
        well_formed(roster),
        within(roster, issued),
    ensures
        present(step(roster, issued, event).roster, to) == match event {
            Event::Join { pos } => present(roster, to) || (!is_full(issued) && to == next_id(issued)),
            Event::Peer { source, message } => present(roster, to),
            Event::Move { id, pos } => present(roster, to),
            Event::Quit { id } => present(roster, to) && to != id,
        },
{
    let after = step(roster, issued, event).roster;
    match event {
        Event::Join { pos } => {
            if !is_full(issued) {
                if present(roster, to) {
                    let at = choose|i: int| 0 <= i < roster.len() && (#[trigger] roster[i]).id == to;
                    assert(after[at].id == to);
                }
                if to == next_id(issued) {
                    assert(after[after.len() - 1].id == to);
                }
                if present(after, to) && to != next_id(issued) {
                    let at = choose|i: int| 0 <= i < after.len() && (#[trigger] after[i]).id == to;
                    assert(roster[at].id == to);
                }
            }
        },
        Event::Peer { source, message } => {},
        Event::Move { id, pos } => {
            lemma_with_move_present(roster, id, pos, to);
        },
        Event::Quit { id } => {
            if present(roster, id) {
                lemma_without_present_iff(roster, id, to);
            }
        },
    }
}

/// Every `Hello` names its receiver as its own state and lists only others;
/// no peer is sent an `AddPeer` or a `RemovePeer` about itself.
pub proof fn theorem_no_news_about_oneself(events: Seq<Event>, to: usize, k: int)
    requires
        0 <= k < received(events, to).len(),
    ensures
        match received(events, to)[k] {
            ServerMessageView::Hello { state, peers } => state.id == to && !present(peers, to),
            ServerMessageView::AddPeer { peer } => peer.id != to,
            ServerMessageView::RemovePeer { peer } => peer != to,
            _ => true,
        },
    decreases events.len(),
{
    if events.len() == 0 {
        lemma_stream_empty(to);
    } else {
        let before = run(events.drop_last());
        let earlier = received(events.drop_last(), to);
        let all = received(events, to);
        lemma_run_well_formed(events.drop_last());
        lemma_received_unfold(events, to);
        if k < earlier.len() {
            theorem_no_news_about_oneself(events.drop_last(), to, k);
            assert(all[k] == earlier[k]);
        } else {
            assert(all[k] == reaction(before.roster, before.issued, events.last(), to)->0);
            if !is_full(before.issued) {
                lemma_next_id_is_new(before.roster, before.issued);
            }
        }
    }
}

/// Whether the request at `at` is a message that the peer `id` sends to
/// itself while it is connected.
pub open spec fn talks_to_itself(events: Seq<Event>, at: int, id: usize) -> bool {
    &&& events[at] matches Event::Peer { source, message }
    &&& source == id
    &&& message.peer == id
    &&& present(run(events.take(at)).roster, id)
}

/// A relayed message names its sender, not its receiver: unless a peer sent
/// a message to itself, no `PeerMessage` that it receives carries its own id.
pub proof fn theorem_relayed_message_names_another(events: Seq<Event>, to: usize, k: int)
    requires
        forall|at: int| 0 <= at < events.len() ==> !talks_to_itself(events, at, to),
        0 <= k < received(events, to).len(),
        received(events, to)[k] is PeerMessage,
    ensures
        received(events, to)[k]->PeerMessage_message.peer != to,
    decreases events.len(),
{
    if events.len() == 0 {
        lemma_stream_empty(to);
    } else {
        let shorter = events.drop_last();
        let before = run(shorter);
        let earlier = received(shorter, to);
        let all = received(events, to);
        lemma_run_well_formed(shorter);
        lemma_received_unfold(events, to);
        if k < earlier.len() {
            assert forall|at: int| 0 <= at < shorter.len() implies !talks_to_itself(
                shorter,
                at,
                to,
            ) by {
                assert(shorter.take(at) == events.take(at));
                assert(!talks_to_itself(events, at, to));
            }
            theorem_relayed_message_names_another(shorter, to, k);
            assert(all[k] == earlier[k]);
        } else {
            assert(all[k] == reaction(before.roster, before.issued, events.last(), to)->0);
            assert(events.take(events.len() - 1) == shorter);
            assert(!talks_to_itself(events, events.len() - 1, to));
        }
    }
}

/// A message for a connected peer reaches that peer exactly once, carrying
/// the sender's id and the payload as it came; nobody else receives anything
/// and the roster stays as it is.
pub proof fn theorem_relay_reaches_addressee_once(
    roster: Seq<Peer>,
    issued: usize,
    source: usize,
    message: PeerMessage,
)
    requires
        present(roster, message.peer),
    ensures
        step(roster, issued, Event::Peer { source, message }).roster == roster,
        step(roster, issued, Event::Peer { source, message }).deliveries == seq![
            DeliveryView {
                to: message.peer,
                message: ServerMessageView::PeerMessage {
                    message: PeerMessage { peer: source, data: message.data },
                },
            },
        ],
{
}

/// A message for somebody who is not connected is dropped: nobody receives
/// anything and the roster stays as it is.
pub proof fn theorem_unknown_addressee_is_dropped(
    roster: Seq<Peer>,
    issued: usize,
    source: usize,
    message: PeerMessage,
)
    requires
        !present(roster, message.peer),
    ensures
        step(roster, issued, Event::Peer { source, message }).roster == roster,
        step(roster, issued, Event::Peer { source, message }).deliveries == Seq::<DeliveryView>::empty(),
{
}

/// Cleaning up after the same peer twice is the same as doing it once: after
/// the first time the peer is gone, and the second time the roster stays as
/// it is and nothing is sent.
pub proof fn theorem_quit_twice_is_quit_once(roster: Seq<Peer>, issued: usize, id: usize)
    requires
        well_formed(roster),
        within(roster, issued),
    ensures
        !present(step(roster, issued, Event::Quit { id }).roster, id),
        step(roster, issued, Event::Quit { id }).issued == issued,
        step(
            step(roster, issued, Event::Quit { id }).roster,
            issued,
            Event::Quit { id },
        ).roster == step(roster, issued, Event::Quit { id }).roster,
        step(
            step(roster, issued, Event::Quit { id }).roster,
            issued,
            Event::Quit { id },
        ).deliveries == Seq::<DeliveryView>::empty(),
{
    lemma_present_after_step(roster, issued, Event::Quit { id }, id);
}

/// Whether every message in `events` is sent by a peer that is connected at
/// that moment.
pub open spec fn only_the_connected_send(events: Seq<Event>) -> bool {
    forall|at: int|
        0 <= at < events.len() ==> (#[trigger] events[at] matches Event::Peer { source, message }
            ==> present(run(events.take(at)).roster, source))
}

/// A peer hears from another only while it has it as connected: when only
/// connected peers send, the sender of a relayed message was announced to
/// the receiver before and has not been withdrawn since.
pub proof fn theorem_relayed_sender_is_known(events: Seq<Event>, to: usize, k: int)
    requires
        only_the_connected_send(events),
        0 <= k < received(events, to).len(),
        received(events, to)[k] is PeerMessage,
        received(events, to)[k]->PeerMessage_message.peer != to,
    ensures
        known(received(events, to).take(k)).contains(
            received(events, to)[k]->PeerMessage_message.peer,
        ),
    decreases events.len(),
{
    if events.len() == 0 {
        lemma_stream_empty(to);
    } else {
        let shorter = events.drop_last();
        let before = run(shorter);
        let earlier = received(shorter, to);
        let all = received(events, to);
        lemma_run_well_formed(shorter);
        lemma_received_unfold(events, to);
        if k < earlier.len() {
            assert forall|at: int| 0 <= at < shorter.len() implies (
            #[trigger] shorter[at] matches Event::Peer { source, message } ==> present(
                run(shorter.take(at)).roster,
                source,
            )) by {
                assert(shorter.take(at) == events.take(at));
                assert(shorter[at] == events[at]);
            }
            theorem_relayed_sender_is_known(shorter, to, k);
            assert(all.take(k) == earlier.take(k));
            assert(all[k] == earlier[k]);
        } else {
            assert(all.take(k) == earlier);
            assert(all[k] == reaction(before.roster, before.issued, events.last(), to)->0);
            assert(events.take(events.len() - 1) == shorter);
            assert(events[events.len() - 1] == events.last());
            theorem_known_is_rest_of_roster(shorter, to);
        }
    }
}

/// Nobody is announced twice: an `AddPeer` is about a peer that the stream
/// does not have as connected at that moment.
pub proof fn theorem_addition_is_news(events: Seq<Event>, to: usize, k: int)
    requires
        0 <= k < received(events, to).len(),
        received(events, to)[k] is AddPeer,
    ensures
        !known(received(events, to).take(k)).contains(received(events, to)[k]->AddPeer_peer.id),
    decreases events.len(),
{
    if events.len() == 0 {
        lemma_stream_empty(to);
    } else {
        let shorter = events.drop_last();
        let before = run(shorter);
        let earlier = received(shorter, to);
        let all = received(events, to);
        lemma_run_well_formed(shorter);
        lemma_received_unfold(events, to);
        if k < earlier.len() {
            theorem_addition_is_news(shorter, to, k);
            assert(all.take(k) == earlier.take(k));
            assert(all[k] == earlier[k]);
        } else {
            assert(all.take(k) == earlier);
            assert(all[k] == reaction(before.roster, before.issued, events.last(), to)->0);
            lemma_next_id_is_new(before.roster, before.issued);
            theorem_known_is_rest_of_roster(shorter, to);
        }
    }
}

/// Messages go to connected peers only: whoever a request sends something to
/// is on the roster once the request is handled.
pub proof fn theorem_deliveries_reach_the_connected(
    roster: Seq<Peer>,
    issued: usize,
    event: Event,
    i: int,
)
    requires
        well_formed(roster),
        within(roster, issued),
        0 <= i < step(roster, issued, event).deliveries.len(),
    ensures
        present(step(roster, issued, event).roster, step(roster, issued, event).deliveries[i].to),
{
    let deliveries = step(roster, issued, event).deliveries;
    let to = deliveries[i].to;
    let mine = |d: DeliveryView| d.to == to;
    deliveries.lemma_filter_contains(mine, i);
    assert(deliveries.filter(mine).len() > 0);
    assert(stream(deliveries, to).len() > 0);
    lemma_stream_of_step(roster, issued, event, to);
    lemma_present_after_step(roster, issued, event, to);
    if !is_full(issued) {
        lemma_next_id_is_new(roster, issued);
    }
}

/// In any run, a message for a connected peer adds exactly one entry to the
/// stream of that peer, carrying the sender's id and the payload as it came,
/// and leaves every other stream as it was.
pub proof fn theorem_relay_extends_one_stream(
    events: Seq<Event>,
    source: usize,
    message: PeerMessage,
    to: usize,
)
    requires
        present(run(events).roster, message.peer),
    ensures
        received(events.push(Event::Peer { source, message }), to) == if to == message.peer {
            received(events, to).push(
                ServerMessageView::PeerMessage {
                    message: PeerMessage { peer: source, data: message.data },
                },
            )
        } else {
            received(events, to)
        },
        run(events.push(Event::Peer { source, message })).roster == run(events).roster,
{
    let longer = events.push(Event::Peer { source, message });
    assert(longer.drop_last() == events);
    lemma_received_unfold(longer, to);
    if to != message.peer {
        assert(received(events, to) + Seq::<ServerMessageView>::empty() == received(events, to));
    }
}

/// In any run, cleaning up after a peer a second time changes no stream and
/// leaves the roster as it was.
pub proof fn theorem_second_quit_is_silent(events: Seq<Event>, id: usize, to: usize)
    ensures
        received(events.push(Event::Quit { id }).push(Event::Quit { id }), to) == received(
            events.push(Event::Quit { id }),
            to,
        ),
        run(events.push(Event::Quit { id }).push(Event::Quit { id })).roster == run(
            events.push(Event::Quit { id }),
        ).roster,
{
    let once = events.push(Event::Quit { id });
    let twice = once.push(Event::Quit { id });
    assert(once.drop_last() == events);
    assert(twice.drop_last() == once);
    lemma_run_well_formed(events);
    lemma_run_well_formed(once);
    theorem_quit_twice_is_quit_once(run(events).roster, run(events).issued, id);
    lemma_received_unfold(twice, to);
    assert(received(once, to) + Seq::<ServerMessageView>::empty() == received(once, to));
}

/// The largest id handed out never goes down in the course of a run.
pub proof fn lemma_issued_grows(events: Seq<Event>, earlier: int, later: int)
    requires
        0 <= earlier <= later <= events.len(),
    ensures
        run(events.take(earlier)).issued <= run(events.take(later)).issued,
    decreases later - earlier,
{
    if earlier < later {
        lemma_issued_grows(events, earlier, later - 1);
        assert(events.take(later).drop_last() == events.take(later - 1));
        lemma_run_well_formed(events.take(later - 1));
        lemma_step_well_formed(
            run(events.take(later - 1)).roster,
            run(events.take(later - 1)).issued,
            events.take(later).last(),
        );
    }
}

/// The id that the request at `at` hands out, if it is a `Join` and an id is
/// left.
pub open spec fn assigned(events: Seq<Event>, at: int) -> Option<usize> {
    if events[at] is Join && !is_full(run(events.take(at)).issued) {
        Some(next_id(run(events.take(at)).issued))
    } else {
        None
    }
}

/// No id is handed out twice: of two connections that join in the course of
/// a run, the later gets the larger id, whoever has left in between.
pub proof fn theorem_ids_are_never_reused(events: Seq<Event>, first: int, second: int)
    requires
        0 <= first < second < events.len(),
        assigned(events, first) is Some,
        assigned(events, second) is Some,
    ensures
        1 <= assigned(events, first)->0 < assigned(events, second)->0,
{
    assert(events.take(first + 1).drop_last() == events.take(first));
    assert(events.take(first + 1).last() == events[first]);
    lemma_issued_grows(events, first + 1, second);
}

/// The id that a newcomer gets was never on the roster before: not when it
/// joins, and at no earlier moment of the run.
pub proof fn theorem_new_id_was_never_in_use(events: Seq<Event>, at: int, earlier: int)
    requires
        0 <= earlier <= at < events.len(),
        assigned(events, at) is Some,
    ensures
        !present(run(events.take(earlier)).roster, assigned(events, at)->0),
{
    let id = assigned(events, at)->0;
    let roster = run(events.take(earlier)).roster;
    lemma_issued_grows(events, earlier, at);
    lemma_run_well_formed(events.take(earlier));
    if present(roster, id) {
        let i = choose|i: int| 0 <= i < roster.len() && (#[trigger] roster[i]).id == id;
        assert(roster[i].id <= run(events.take(earlier)).issued);
    }
}

/// An id that has not been handed out has received nothing.
pub proof fn lemma_nothing_for_the_unissued(events: Seq<Event>, to: usize)
    requires
        to > run(events).issued,
    ensures
        received(events, to) == Seq::<ServerMessageView>::empty(),
    decreases events.len(),
{
    if events.len() == 0 {
        lemma_stream_empty(to);
    } else {
        let before = run(events.drop_last());
        lemma_run_well_formed(events.drop_last());
        lemma_step_well_formed(before.roster, before.issued, events.last());
        lemma_nothing_for_the_unissued(events.drop_last(), to);
        lemma_received_unfold(events, to);
        if present(before.roster, to) {
            let i = choose|i: int|
                0 <= i < before.roster.len() && (#[trigger] before.roster[i]).id == to;
            assert(before.roster[i].id <= before.issued);
        }
    }
}

/// A connection is greeted once: the `Hello` is the first message of its
/// stream and no later message is a `Hello`. As no id is handed out twice,
/// the stream of an id is the stream of one connection.
pub proof fn theorem_hello_comes_once(events: Seq<Event>, to: usize, k: int)
    requires
        0 <= k < received(events, to).len(),
    ensures
        received(events, to)[k] is Hello <==> k == 0,
    decreases events.len(),
{
    if events.len() == 0 {
        lemma_stream_empty(to);
    } else {
        let before = run(events.drop_last());
        let earlier = received(events.drop_last(), to);
        let all = received(events, to);
        lemma_run_well_formed(events.drop_last());
        lemma_received_unfold(events, to);
        theorem_hello_comes_first(events, to);
        if k < earlier.len() {
            theorem_hello_comes_once(events.drop_last(), to, k);
            assert(all[k] == earlier[k]);
        } else {
            assert(all[k] == reaction(before.roster, before.issued, events.last(), to)->0);
            if all[k] is Hello {
                lemma_nothing_for_the_unissued(events.drop_last(), to);
            }
        }
    }
}

/// Whether every position that a message carries is finite.
pub open spec fn carries_finite_positions(message: ServerMessageView) -> bool {
    match message {
        ServerMessageView::Hello { state, peers } => state.pos.finite() && all_finite(peers),
        ServerMessageView::AddPeer { peer } => peer.pos.finite(),
        ServerMessageView::MovePeer { peer, pos } => pos.finite(),
        _ => true,
    }
}

/// Every peer on a roster that a run reaches stands at a finite position.
pub proof fn lemma_run_all_finite(events: Seq<Event>)
    ensures
        all_finite(run(events).roster),
    decreases events.len(),
{
    if events.len() > 0 {
        lemma_run_all_finite(events.drop_last());
        lemma_run_well_formed(events.drop_last());
        lemma_step_all_finite(
            run(events.drop_last()).roster,
            run(events.drop_last()).issued,
            events.last(),
        );
    }
}

/// No message ever carries a position that is not finite: a newcomer starts
/// in the area for newcomers, and a move to anywhere else than a finite
/// position is refused.
pub proof fn theorem_positions_are_finite(events: Seq<Event>, to: usize, k: int)
    requires
        0 <= k < received(events, to).len(),
    ensures
        carries_finite_positions(received(events, to)[k]),
    decreases events.len(),
{
    if events.len() == 0 {
        lemma_stream_empty(to);
    } else {
        let before = run(events.drop_last());
        let earlier = received(events.drop_last(), to);
        let all = received(events, to);
        lemma_run_well_formed(events.drop_last());
        lemma_run_all_finite(events.drop_last());
        lemma_received_unfold(events, to);
        if k < earlier.len() {
            theorem_positions_are_finite(events.drop_last(), to, k);
            assert(all[k] == earlier[k]);
        } else {
            assert(all[k] == reaction(before.roster, before.issued, events.last(), to)->0);
        }
    }
}

/// What a join does, whenever an id is left: the newcomer gets an id that is
/// positive and not on the roster, and starts in the area for newcomers; the
/// first message sent is its `Hello`, which names it and lists exactly the
/// roster as it was; the newcomer receives nothing else, everyone who was
/// there receives one `AddPeer` about it, and nobody else receives anything.
pub proof fn theorem_join_greets_and_announces(
    roster: Seq<Peer>,
    issued: usize,
    pos: Pos,
    to: usize,
)
    requires
        well_formed(roster),
        within(roster, issued),
        !is_full(issued),
    ensures
        next_id(issued) >= 1,
        !present(roster, next_id(issued)),
        pos.placed().spawnable(),
        step(roster, issued, Event::Join { pos }).issued == next_id(issued),
        step(roster, issued, Event::Join { pos }).roster == roster.push(
            Peer { id: next_id(issued), pos: pos.placed() },
        ),
        step(roster, issued, Event::Join { pos }).deliveries[0] == (DeliveryView {
            to: next_id(issued),
            message: ServerMessageView::Hello {
                state: Peer { id: next_id(issued), pos: pos.placed() },
                peers: roster,
            },
        }),
        stream(step(roster, issued, Event::Join { pos }).deliveries, to) == if to == next_id(
            issued,
        ) {
            seq![
                ServerMessageView::Hello {
                    state: Peer { id: next_id(issued), pos: pos.placed() },
                    peers: roster,
                },
            ]
        } else if present(roster, to) {
            seq![
                ServerMessageView::AddPeer {
                    peer: Peer { id: next_id(issued), pos: pos.placed() },
                },
            ]
        } else {
            Seq::empty()
        },
{
    lemma_next_id_is_new(roster, issued);
    lemma_stream_of_step(roster, issued, Event::Join { pos }, to);
}

} // verus!
