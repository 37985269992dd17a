//! The broker: who listens on which channel, who answers requests on it,
//! and which requests wait for someone to answer them.
//!
//! The broker decides and keeps the tables; it sends nothing. Each
//! operation hands back what is to be delivered and to whom.

use vstd::prelude::*;
use crate::message::{
    BroadcastMessage, EnvelopeView, ListenMessage, RequestMessage, ResponseMessage,
};
use crate::payload::Params;

verus! {

/// The identity of a connection.
#[derive(Debug, Clone, Copy, PartialEq, Eq, Structural, Hash)]
pub struct ConnectionId {
    pub value: u128,
}

/// View of a request with the connection that made it.
pub struct RequesterView {
    pub connection_id: ConnectionId,
    pub message: EnvelopeView,
}

/// The requests of a queue that `connection_id` did not make, in order.
pub open spec fn without(queue: Seq<RequesterView>, connection_id: ConnectionId) -> Seq<
    RequesterView,
>
    decreases queue.len(),
{
    if queue.len() == 0 {
        Seq::empty()
    } else if queue.last().connection_id == connection_id {
        without(queue.drop_last(), connection_id)
    } else {
        without(queue.drop_last(), connection_id).push(queue.last())
    }
}

/// The three tables of the broker. The listeners and the queue of waiting
/// requests are given for every channel; a channel has a responder or none.
pub struct BrokerView {
    pub listeners: Map<Seq<char>, Set<ConnectionId>>,
    pub responders: Map<Seq<char>, ConnectionId>,
    pub requests: Map<Seq<char>, Seq<RequesterView>>,
}

impl BrokerView {
    /// The tables are in order: listeners and waiting requests are given
    /// for every channel, a queue holds requests for its own channel only,
    /// and no request waits on a channel that has a responder.
    pub open spec fn well_formed(self) -> bool {
        &&& forall|channel: Seq<char>| #[trigger] self.listeners.contains_key(channel)
        &&& forall|channel: Seq<char>| #[trigger] self.requests.contains_key(channel)
        &&& forall|channel: Seq<char>, i: int|
            0 <= i < self.requests[channel].len() ==> (
            #[trigger] self.requests[channel][i]).message.channel == channel
        &&& forall|channel: Seq<char>| #[trigger]
            self.responders.contains_key(channel) ==> self.requests[channel].len() == 0
    }

    /// The tables of a broker that nothing has happened to.
    pub open spec fn empty() -> BrokerView {
        BrokerView {
            listeners: Map::total(|channel: Seq<char>| Set::<ConnectionId>::empty()),
            responders: Map::empty(),
            requests: Map::total(|channel: Seq<char>| Seq::<RequesterView>::empty()),
        }
    }

    /// The tables after `connection_id` has subscribed to `channel`.
    pub open spec fn listen(self, connection_id: ConnectionId, channel: Seq<char>) -> BrokerView {
        BrokerView {
            listeners: self.listeners.insert(
                channel,
                self.listeners[channel].insert(connection_id),
            ),
            ..self
        }
    }

    /// The connections that a broadcast on `channel` goes to.
    pub open spec fn audience(self, channel: Seq<char>) -> Set<ConnectionId> {
        self.listeners[channel]
    }

    /// The tables after `connection_id` has become the responder of
    /// `channel`: it takes the place of any responder before it, and the
    /// requests that waited on the channel have been handed to it.
    pub open spec fn respond(self, connection_id: ConnectionId, channel: Seq<char>) -> BrokerView {
        BrokerView {
            responders: self.responders.insert(channel, connection_id),
            requests: self.requests.insert(channel, Seq::empty()),
            ..self
        }
    }

    /// The requests that the new responder of `channel` is handed, oldest
    /// first.
    pub open spec fn backlog(self, channel: Seq<char>) -> Seq<RequesterView> {
        self.requests[channel]
    }

    /// The responder that a request on `channel` goes to at once, if the
    /// channel has one.
    pub open spec fn responder(self, channel: Seq<char>) -> Option<ConnectionId> {
        if self.responders.contains_key(channel) {
            Some(self.responders[channel])
        } else {
            None
        }
    }

    /// The tables after `connection_id` has made a request: unchanged where
    /// the channel has a responder, and with the request at the end of the
    /// channel's queue where it has none.
    pub open spec fn request(self, connection_id: ConnectionId, message: EnvelopeView) -> BrokerView {
        if self.responders.contains_key(message.channel) {
            self
        } else {
            BrokerView {
                requests: self.requests.insert(
                    message.channel,
                    self.requests[message.channel].push(RequesterView { connection_id, message }),
                ),
                ..self
            }
        }
    }

    /// The tables after the oldest request that waits on `channel` has been
    /// taken from its queue.
    pub open spec fn consume(self, channel: Seq<char>) -> BrokerView {
        if self.requests[channel].len() == 0 {
            self
        } else {
            BrokerView {
                requests: self.requests.insert(channel, self.requests[channel].drop_first()),
                ..self
            }
        }
    }

    /// The tables after `connection_id` has gone: it listens nowhere, it is
    /// the responder of no channel, and none of its requests waits. What
    /// others have in the tables stays.
    pub open spec fn disconnect(self, connection_id: ConnectionId) -> BrokerView {
        BrokerView {
            listeners: Map::total(
                |channel: Seq<char>| self.listeners[channel].remove(connection_id),
            ),
            responders: Map::new(
                |channel: Seq<char>|
                    self.responders.contains_key(channel) && self.responders[channel]
                        != connection_id,
                |channel: Seq<char>| self.responders[channel],
            ),
            requests: Map::total(
                |channel: Seq<char>| without(self.requests[channel], connection_id),
            ),
        }
    }

    /// Whether `connection_id` listens on `channel`.
    pub open spec fn listens(self, connection_id: ConnectionId, channel: Seq<char>) -> bool {
        self.listeners[channel].contains(connection_id)
    }

    /// Whether `connection_id` is the responder of `channel`.
    pub open spec fn answers(self, connection_id: ConnectionId, channel: Seq<char>) -> bool {
        self.responders.contains_key(channel) && self.responders[channel] == connection_id
    }

    /// Whether a request of `connection_id` waits on `channel`.
    pub open spec fn waits(self, connection_id: ConnectionId, channel: Seq<char>) -> bool {
        exists|i: int|
            0 <= i < self.requests[channel].len() && (
            #[trigger] self.requests[channel][i]).connection_id == connection_id
    }

    /// Whether any of the three tables holds `connection_id`.
    pub open spec fn mentions(self, connection_id: ConnectionId) -> bool {
        exists|channel: Seq<char>|
            #![trigger self.listens(connection_id, channel)]
            #![trigger self.answers(connection_id, channel)]
            #![trigger self.waits(connection_id, channel)]
            self.listens(connection_id, channel) || self.answers(connection_id, channel)
                || self.waits(connection_id, channel)
    }
}

/// What is left of a queue without the requests of a connection holds none
/// of them, and only requests of the queue, in their order.
pub proof fn lemma_without(queue: Seq<RequesterView>, connection_id: ConnectionId)
    ensures
        forall|i: int|
            0 <= i < without(queue, connection_id).len() ==> (#[trigger] without(
                queue,
                connection_id,
            )[i]).connection_id != connection_id && queue.contains(
                without(queue, connection_id)[i],
            ),
        without(queue, connection_id).len() <= queue.len(),
        (forall|i: int| 0 <= i < queue.len() ==> (#[trigger] queue[i]).connection_id
            != connection_id) ==> without(queue, connection_id) == queue,
    decreases queue.len(),
{
    if queue.len() > 0 {
        let front = queue.drop_last();
        lemma_without(front, connection_id);
        let rest = without(queue, connection_id);
        assert forall|i: int| 0 <= i < rest.len() implies (#[trigger] rest[i]).connection_id
            != connection_id && queue.contains(rest[i]) by {
            if i < without(front, connection_id).len() {
                let j = choose|j: int|
                    0 <= j < front.len() && front[j] == without(front, connection_id)[i];
                assert(queue[j] == rest[i]);
            } else {
                assert(queue[queue.len() - 1] == rest[i]);
            }
        }
        if forall|i: int| 0 <= i < queue.len() ==> (#[trigger] queue[i]).connection_id
            != connection_id {
            assert forall|i: int| 0 <= i < front.len() implies (#[trigger] front[i]).connection_id
                != connection_id by {
                assert(front[i] == queue[i]);
            }
            assert(queue.last() == queue[queue.len() - 1]);
            assert(without(queue, connection_id) =~= queue);
        }
    } else {
        assert(without(queue, connection_id) =~= queue);
    }
}

/// Subscribing twice is subscribing once: the second subscription changes
/// nothing, and the connection is in the channel's set of listeners.
pub proof fn law_listen_is_idempotent(
    broker: BrokerView,
    connection_id: ConnectionId,
    channel: Seq<char>,
)
    ensures
        broker.listen(connection_id, channel).listen(connection_id, channel) == broker.listen(
            connection_id,
            channel,
        ),
        broker.listen(connection_id, channel).audience(channel) == broker.audience(channel).insert(
            connection_id,
        ),
        broker.listen(connection_id, channel).listens(connection_id, channel),
{
    let once = broker.listen(connection_id, channel);
    let twice = once.listen(connection_id, channel);
    assert(once.listeners[channel].insert(connection_id) =~= once.listeners[channel]);
    assert(twice.listeners =~= once.listeners);
}

/// After a connection has gone, no table of the broker holds it.
pub proof fn law_disconnect_forgets(broker: BrokerView, connection_id: ConnectionId)
    ensures
        !broker.disconnect(connection_id).mentions(connection_id),
{
    let after = broker.disconnect(connection_id);
    assert forall|channel: Seq<char>|
        !after.listens(connection_id, channel) && !after.answers(connection_id, channel)
            && !after.waits(connection_id, channel) by {
        lemma_without(broker.requests[channel], connection_id);
    }
}

/// What others have in the tables stays when a connection goes: their
/// subscriptions, their bindings as responders, and their waiting requests
/// in order.
pub proof fn law_disconnect_keeps_others(
    broker: BrokerView,
    gone: ConnectionId,
    other: ConnectionId,
    channel: Seq<char>,
)
    requires
        other != gone,
    ensures
        broker.disconnect(gone).listens(other, channel) == broker.listens(other, channel),
        broker.disconnect(gone).answers(other, channel) == broker.answers(other, channel),
        broker.disconnect(gone).requests[channel] == without(broker.requests[channel], gone),
{
}

/// A clean disconnect: after a connection has gone, a broadcast on a channel
/// goes to the channel's other listeners and not to it, and the next
/// responder of a channel is handed the waiting requests of the others, in
/// their order, and none of its.
pub proof fn law_gone_connection_gets_nothing(
    broker: BrokerView,
    gone: ConnectionId,
    responder: ConnectionId,
    channel: Seq<char>,
)
    ensures
        !broker.disconnect(gone).audience(channel).contains(gone),
        broker.disconnect(gone).audience(channel) == broker.audience(channel).remove(gone),
        broker.disconnect(gone).backlog(channel) == without(broker.backlog(channel), gone),
        forall|i: int|
            0 <= i < handed_over(responder, broker.disconnect(gone).backlog(channel)).len() ==> (
            #[trigger] handed_over(responder, broker.disconnect(gone).backlog(channel))[i]).requester
                != gone,
{
    lemma_without(broker.requests[channel], gone);
}

/// First in, first out: of two requests made on a channel without a
/// responder, the responder that binds next is handed the earlier one
/// before the later one, behind all that waited before them, and the
/// queue of the channel is empty afterwards.
pub proof fn law_requests_are_answered_in_order(
    broker: BrokerView,
    first: ConnectionId,
    first_message: EnvelopeView,
    second: ConnectionId,
    second_message: EnvelopeView,
    responder: ConnectionId,
    channel: Seq<char>,
)
    requires
        first_message.channel == channel,
        second_message.channel == channel,
        broker.responder(channel) is None,
    ensures
        ({
            let waiting = broker.request(first, first_message).request(second, second_message);
            &&& waiting.responder(channel) is None
            &&& handed_over(responder, waiting.backlog(channel)) == handed_over(
                responder,
                broker.backlog(channel),
            ).push(
                DispatchView { responder, requester: first, message: first_message },
            ).push(DispatchView { responder, requester: second, message: second_message })
            &&& waiting.respond(responder, channel).backlog(channel).len() == 0
            &&& waiting.respond(responder, channel).responder(channel) == Some(responder)
        }),
{
    let waiting = broker.request(first, first_message).request(second, second_message);
    assert(handed_over(responder, waiting.backlog(channel)) =~= handed_over(
        responder,
        broker.backlog(channel),
    ).push(DispatchView { responder, requester: first, message: first_message }).push(
        DispatchView { responder, requester: second, message: second_message },
    ));
}

/// A responder takes the place of the one before it: after two connections
/// have bound to a channel in turn, a request on it goes to the second.
pub proof fn law_later_responder_wins(
    broker: BrokerView,
    earlier: ConnectionId,
    later: ConnectionId,
    channel: Seq<char>,
)
    ensures
        broker.respond(earlier, channel).respond(later, channel).responder(channel) == Some(later),
{
}

/// Every operation keeps the tables in order.
pub proof fn law_tables_stay_in_order(
    broker: BrokerView,
    connection_id: ConnectionId,
    channel: Seq<char>,
    message: EnvelopeView,
)
    requires
        broker.well_formed(),
    ensures
        BrokerView::empty().well_formed(),
        broker.listen(connection_id, channel).well_formed(),
        broker.respond(connection_id, channel).well_formed(),
        broker.request(connection_id, message).well_formed(),
        broker.consume(channel).well_formed(),
        broker.disconnect(connection_id).well_formed(),
{
    let after = broker.disconnect(connection_id);
    assert forall|other: Seq<char>, i: int|
        0 <= i < after.requests[other].len() implies (
    #[trigger] after.requests[other][i]).message.channel == other by {
        lemma_without(broker.requests[other], connection_id);
        let kept = after.requests[other][i];
        let j = choose|j: int|
            0 <= j < broker.requests[other].len() && broker.requests[other][j] == kept;
        assert(broker.requests[other][j].message.channel == other);
    }
    assert forall|other: Seq<char>| #[trigger]
        after.responders.contains_key(other) implies after.requests[other].len() == 0 by {
        lemma_without(broker.requests[other], connection_id);
    }
    let sent = broker.request(connection_id, message);
    assert forall|other: Seq<char>, i: int|
        0 <= i < sent.requests[other].len() implies (
    #[trigger] sent.requests[other][i]).message.channel == other by {
        if !broker.responders.contains_key(message.channel) && other == message.channel && i
            == broker.requests[other].len() {
        } else {
            assert(sent.requests[other][i] == broker.requests[other][i]);
        }
    }
    let taken = broker.consume(channel);
    assert forall|other: Seq<char>, i: int|
        0 <= i < taken.requests[other].len() implies (
    #[trigger] taken.requests[other][i]).message.channel == other by {
        if other == channel && broker.requests[channel].len() > 0 {
            assert(taken.requests[other][i] == broker.requests[other][i + 1]);
        } else {
            assert(taken.requests[other][i] == broker.requests[other][i]);
        }
    }
}

/// A subscription: the connection listens on the channel.
#[derive(Debug)]
pub struct Listener {
    pub connection_id: ConnectionId,
    pub channel: String,
}

/// A binding: the connection answers the requests on the channel.
#[derive(Debug)]
pub struct Responder {
    pub connection_id: ConnectionId,
    pub channel: String,
}

/// A request with the connection that made it, to which the answer goes.
#[derive(Debug)]
pub struct Requester {
    pub connection_id: ConnectionId,
    pub message: RequestMessage,
}

impl View for Requester {
    type V = RequesterView;

    open spec fn view(&self) -> RequesterView {
        RequesterView { connection_id: self.connection_id, message: self.message@ }
    }
}

/// The connections that the subscriptions name for a channel.
pub open spec fn listening(entries: Seq<Listener>, channel: Seq<char>) -> Set<ConnectionId> {
    Set::new(
        |connection_id: ConnectionId|
            exists|i: int|
                0 <= i < entries.len() && (#[trigger] entries[i]).channel@ == channel
                    && entries[i].connection_id == connection_id,
    )
}

/// No connection is subscribed twice to one channel.
pub open spec fn distinct_listeners(entries: Seq<Listener>) -> bool {
    forall|i: int, j: int|
        0 <= i < j < entries.len() ==> !((#[trigger] entries[i]).channel@ == (
        #[trigger] entries[j]).channel@ && entries[i].connection_id == entries[j].connection_id)
}

/// Whether a binding names the channel.
pub open spec fn is_bound(entries: Seq<Responder>, channel: Seq<char>) -> bool {
    exists|i: int| 0 <= i < entries.len() && (#[trigger] entries[i]).channel@ == channel
}

/// The responder of each channel that a binding names.
pub open spec fn bindings(entries: Seq<Responder>) -> Map<Seq<char>, ConnectionId> {
    Map::new(
        |channel: Seq<char>| is_bound(entries, channel),
        |channel: Seq<char>|
            entries[choose|i: int|
                0 <= i < entries.len() && (#[trigger] entries[i]).channel@
                    == channel].connection_id,
    )
}

/// No channel has two bindings.
pub open spec fn distinct_channels(entries: Seq<Responder>) -> bool {
    forall|i: int, j: int|
        0 <= i < j < entries.len() ==> (#[trigger] entries[i]).channel@ != (
        #[trigger] entries[j]).channel@
}

/// The requests that wait on a channel, oldest first.
pub open spec fn pending_on(entries: Seq<Requester>, channel: Seq<char>) -> Seq<RequesterView>
    decreases entries.len(),
{
    if entries.len() == 0 {
        Seq::empty()
    } else if entries.last().message.channel@ == channel {
        pending_on(entries.drop_last(), channel).push(entries.last()@)
    } else {
        pending_on(entries.drop_last(), channel)
    }
}

/// No request waits on a channel that a binding names.
pub open spec fn unanswered(requests: Seq<Requester>, responders: Seq<Responder>) -> bool {
    forall|i: int, j: int|
        0 <= i < requests.len() && 0 <= j < responders.len() ==> (
        #[trigger] requests[i]).message.channel@ != (#[trigger] responders[j]).channel@
}

/// With distinct channels, each binding gives the responder of its channel.
pub proof fn lemma_binding(entries: Seq<Responder>, i: int)
    requires
        distinct_channels(entries),
        0 <= i < entries.len(),
    ensures
        bindings(entries).contains_key(entries[i].channel@),
        bindings(entries)[entries[i].channel@] == entries[i].connection_id,
{
    let channel = entries[i].channel@;
    let k = choose|k: int| 0 <= k < entries.len() && (#[trigger] entries[k]).channel@ == channel;
    if k < i {
        assert(entries[k].channel@ != entries[i].channel@);
    }
    if i < k {
        assert(entries[i].channel@ != entries[k].channel@);
    }
}

/// The requests that wait on a channel among two lists, one behind the
/// other, are those of the first and then those of the second.
pub proof fn lemma_pending_on_concat(a: Seq<Requester>, b: Seq<Requester>, channel: Seq<char>)
    ensures
        pending_on(a + b, channel) == pending_on(a, channel) + pending_on(b, channel),
    decreases b.len(),
{
    if b.len() == 0 {
        assert(a + b =~= a);
        assert(pending_on(a, channel) + pending_on(b, channel) =~= pending_on(a, channel));
    } else {
        lemma_pending_on_concat(a, b.drop_last(), channel);
        assert((a + b).drop_last() =~= a + b.drop_last());
        assert((a + b).last() == b.last());
        if b.last().message.channel@ == channel {
            assert((pending_on(a, channel) + pending_on(b.drop_last(), channel)).push(b.last()@)
                =~= pending_on(a, channel) + pending_on(b.drop_last(), channel).push(b.last()@));
        }
    }
}

/// The requests that wait on a channel in a list of one request.
pub proof fn lemma_pending_on_one(entry: Requester, channel: Seq<char>)
    ensures
        pending_on(seq![entry], channel) == if entry.message.channel@ == channel {
            seq![entry@]
        } else {
            Seq::<RequesterView>::empty()
        },
{
    let one = seq![entry];
    assert(one.drop_last() =~= Seq::<Requester>::empty());
    assert(one.last() == entry);
    assert(pending_on(one.drop_last(), channel) =~= Seq::<RequesterView>::empty());
    if entry.message.channel@ == channel {
        assert(Seq::<RequesterView>::empty().push(entry@) =~= seq![entry@]);
    }
}

/// How the waiting requests of a channel change when the request at index
/// `i` leaves the list: the queue of its channel loses it, the others stay.
pub proof fn lemma_pending_on_remove(entries: Seq<Requester>, i: int, channel: Seq<char>)
    requires
        0 <= i < entries.len(),
    ensures
        entries[i].message.channel@ != channel ==> pending_on(entries.remove(i), channel)
            == pending_on(entries, channel),
        entries[i].message.channel@ == channel ==> pending_on(entries, channel) == pending_on(
            entries.subrange(0, i),
            channel,
        ).push(entries[i]@) + pending_on(entries.subrange(i + 1, entries.len() as int), channel)
            && pending_on(entries.remove(i), channel) == pending_on(
            entries.subrange(0, i),
            channel,
        ) + pending_on(entries.subrange(i + 1, entries.len() as int), channel),
{
    let front = entries.subrange(0, i);
    let back = entries.subrange(i + 1, entries.len() as int);
    let one = seq![entries[i]];
    assert(entries =~= front + one + back);
    assert(entries.remove(i) =~= front + back);
    lemma_pending_on_concat(front, one, channel);
    lemma_pending_on_concat(front + one, back, channel);
    lemma_pending_on_concat(front, back, channel);
    lemma_pending_on_one(entries[i], channel);
    if entries[i].message.channel@ == channel {
        assert(pending_on(front, channel) + seq![entries[i]@] =~= pending_on(front, channel).push(
            entries[i]@,
        ));
    } else {
        assert(pending_on(front, channel) + Seq::<RequesterView>::empty() =~= pending_on(
            front,
            channel,
        ));
    }
}

/// Every request of the list waits on its channel.
pub proof fn lemma_pending_on_holds(entries: Seq<Requester>, i: int)
    requires
        0 <= i < entries.len(),
    ensures
        exists|at: int|
            0 <= at < pending_on(entries, entries[i].message.channel@).len() && pending_on(
                entries,
                entries[i].message.channel@,
            )[at] == entries[i]@,
    decreases entries.len(),
{
    let channel = entries[i].message.channel@;
    let queue = pending_on(entries, channel);
    if i == entries.len() - 1 {
        assert(queue[queue.len() - 1] == entries[i]@);
    } else {
        let front = entries.drop_last();
        assert(front[i] == entries[i]);
        lemma_pending_on_holds(front, i);
        let at = choose|at: int|
            0 <= at < pending_on(front, channel).len() && pending_on(front, channel)[at]
                == entries[i]@;
        assert(queue[at] == entries[i]@);
    }
}

/// Every waiting request of a channel is a request of the list for that
/// channel, and every request of the list waits on its channel.
pub proof fn lemma_pending_on_members(entries: Seq<Requester>, channel: Seq<char>)
    ensures
        forall|k: int|
            0 <= k < pending_on(entries, channel).len() ==> (#[trigger] pending_on(
                entries,
                channel,
            )[k]).message.channel == channel && exists|i: int|
                0 <= i < entries.len() && (#[trigger] entries[i])@ == pending_on(
                    entries,
                    channel,
                )[k],
        (forall|i: int| 0 <= i < entries.len() ==> (#[trigger] entries[i]).message.channel@
            != channel) <==> pending_on(entries, channel).len() == 0,
        pending_on(entries, channel).len() <= entries.len(),
    decreases entries.len(),
{
    if entries.len() > 0 {
        let front = entries.drop_last();
        lemma_pending_on_members(front, channel);
        if pending_on(entries, channel).len() == 0 {
            assert forall|i: int| 0 <= i < entries.len() implies (
            #[trigger] entries[i]).message.channel@ != channel by {
                if i < front.len() {
                    assert(front[i] == entries[i]);
                }
            }
        }
        let queue = pending_on(entries, channel);
        assert forall|k: int| 0 <= k < queue.len() implies (#[trigger] queue[k]).message.channel
            == channel && exists|i: int|
            0 <= i < entries.len() && (#[trigger] entries[i])@ == queue[k] by {
            if k < pending_on(front, channel).len() {
                let i = choose|i: int|
                    0 <= i < front.len() && (#[trigger] front[i])@ == pending_on(front, channel)[k];
                assert(entries[i]@ == queue[k]);
            } else {
                assert(entries[entries.len() - 1]@ == queue[k]);
            }
        }
        if forall|i: int| 0 <= i < entries.len() ==> (#[trigger] entries[i]).message.channel@
            != channel {
            assert forall|i: int| 0 <= i < front.len() implies (
            #[trigger] front[i]).message.channel@ != channel by {
                assert(front[i] == entries[i]);
            }
            assert(entries[entries.len() - 1].message.channel@ != channel);
        }
    }
}

/// The broker's tables.
#[derive(Debug)]
pub struct Broker {
    listeners: Vec<Listener>,
    responders: Vec<Responder>,
    requests: Vec<Requester>,
}

/// The tables that three lists stand for.
pub open spec fn tables_of(
    listeners: Seq<Listener>,
    responders: Seq<Responder>,
    requests: Seq<Requester>,
) -> BrokerView {
    BrokerView {
        listeners: Map::total(|channel: Seq<char>| listening(listeners, channel)),
        responders: bindings(responders),
        requests: Map::total(|channel: Seq<char>| pending_on(requests, channel)),
    }
}

/// Tables that stand for lists in which no request waits on a bound
/// channel are in order.
pub proof fn lemma_tables_in_order(
    listeners: Seq<Listener>,
    responders: Seq<Responder>,
    requests: Seq<Requester>,
)
    requires
        unanswered(requests, responders),
    ensures
        tables_of(listeners, responders, requests).well_formed(),
{
    let tables = tables_of(listeners, responders, requests);
    assert forall|channel: Seq<char>, i: int|
        0 <= i < tables.requests[channel].len() implies (
    #[trigger] tables.requests[channel][i]).message.channel == channel by {
        lemma_pending_on_members(requests, channel);
    }
    assert forall|channel: Seq<char>| #[trigger]
        tables.responders.contains_key(channel) implies tables.requests[channel].len() == 0 by {
        let j = choose|j: int|
            0 <= j < responders.len() && (#[trigger] responders[j]).channel@ == channel;
        assert forall|i: int| 0 <= i < requests.len() implies (
        #[trigger] requests[i]).message.channel@ != channel by {
            assert(requests[i].message.channel@ != responders[j].channel@);
        }
        lemma_pending_on_members(requests, channel);
    }
}

impl View for Broker {
    type V = BrokerView;

    closed spec fn view(&self) -> BrokerView {
        tables_of(self.listeners@, self.responders@, self.requests@)
    }
}

impl Broker {
    #[verifier::type_invariant]
    spec fn in_order(self) -> bool {
        &&& distinct_listeners(self.listeners@)
        &&& distinct_channels(self.responders@)
        &&& unanswered(self.requests@, self.responders@)
    }

    /// A broker with empty tables.
    pub fn new() -> (r: Broker)
        ensures
            r@ == BrokerView::empty(),
            r@.well_formed(),
    {
        let r = Broker { listeners: Vec::new(), responders: Vec::new(), requests: Vec::new() };
        proof {
            assert forall|channel: Seq<char>| #[trigger]
                r@.listeners[channel] == Set::<ConnectionId>::empty() by {
                assert(listening(r.listeners@, channel) =~= Set::<ConnectionId>::empty());
            }
            assert(r@.listeners =~= BrokerView::empty().listeners);
            assert(r@.responders =~= BrokerView::empty().responders);
            assert(r@.requests =~= BrokerView::empty().requests);
            lemma_tables_in_order(r.listeners@, r.responders@, r.requests@);
        }
        r
    }

    /// Subscribes a connection to the channel that the message names. A
    /// connection that is subscribed already stays subscribed once.
    pub fn listen(&mut self, connection_id: ConnectionId, message: ListenMessage)
        ensures
            final(self)@ == old(self)@.listen(connection_id, message@),
            final(self)@.well_formed(),
    {
        proof {
            use_type_invariant(&*self);
        }
        let mut taken = Broker::new();
        std::mem::swap(self, &mut taken);
        let Broker { listeners, responders, requests } = taken;
        let mut listeners = listeners;
        let ghost before = listeners@;
        let ghost channel = message@;
        let mut found = false;
        let mut i: usize = 0;
        while i < listeners.len()
            invariant
                i <= listeners@.len(),
                listeners@ == before,
                channel == message.channel@,
                found <==> exists|j: int|
                    0 <= j < i && (#[trigger] before[j]).channel@ == channel
                        && before[j].connection_id == connection_id,
            decreases listeners@.len() - i,
        {
            if listeners[i].connection_id == connection_id && listeners[i].channel
                == message.channel {
                found = true;
            }
            i += 1;
        }
        if !found {
            listeners.push(Listener { connection_id, channel: message.channel });
        }
        proof {
            let tables = tables_of(before, responders@, requests@);
            let after = tables_of(listeners@, responders@, requests@);
            assert forall|other: Seq<char>| #[trigger]
                after.listeners[other] == tables.listen(connection_id, channel).listeners[other] by {
                assert forall|c: ConnectionId|
                    listening(listeners@, other).contains(c) == tables.listen(
                        connection_id,
                        channel,
                    ).listeners[other].contains(c) by {
                    if listening(listeners@, other).contains(c) {
                        let k = choose|k: int|
                            0 <= k < listeners@.len() && (#[trigger] listeners@[k]).channel@
                                == other && listeners@[k].connection_id == c;
                        if k < before.len() {
                            assert(before[k].channel@ == other && before[k].connection_id == c);
                        }
                    }
                    if listening(before, other).contains(c) {
                        let k = choose|k: int|
                            0 <= k < before.len() && (#[trigger] before[k]).channel@ == other
                                && before[k].connection_id == c;
                        assert(listeners@[k].channel@ == other && listeners@[k].connection_id == c);
                    }
                    if other == channel && c == connection_id {
                        if found {
                            let k = choose|k: int|
                                0 <= k < before.len() && (#[trigger] before[k]).channel@ == channel
                                    && before[k].connection_id == connection_id;
                            assert(listeners@[k].channel@ == other
                                && listeners@[k].connection_id == c);
                        } else {
                            assert(listeners@[before.len() as int].channel@ == other
                                && listeners@[before.len() as int].connection_id == c);
                        }
                    }
                }
                assert(after.listeners[other] =~= tables.listen(
                    connection_id,
                    channel,
                ).listeners[other]);
            }
            assert(after.listeners =~= tables.listen(connection_id, channel).listeners);
            lemma_tables_in_order(listeners@, responders@, requests@);
        }
        *self = Broker { listeners, responders, requests };
    }

    /// The connections that a broadcast is to be delivered to: the
    /// listeners of its channel, each once.
    pub fn broadcast(&self, message: &BroadcastMessage) -> (r: Vec<ConnectionId>)
        ensures
            r@.no_duplicates(),
            r@.to_set() == self@.audience(message.channel@),
    {
        proof {
            use_type_invariant(self);
        }
        let ghost channel = message.channel@;
        let mut audience: Vec<ConnectionId> = Vec::new();
        let ghost mut origin: Seq<int> = Seq::empty();
        let mut i: usize = 0;
        while i < self.listeners.len()
            invariant
                i <= self.listeners@.len(),
                channel == message.channel@,
                distinct_listeners(self.listeners@),
                origin.len() == audience@.len(),
                forall|k: int|
                    0 <= k < audience@.len() ==> 0 <= #[trigger] origin[k] < i
                        && self.listeners@[origin[k]].channel@ == channel
                        && self.listeners@[origin[k]].connection_id == audience@[k],
                forall|k: int, l: int|
                    0 <= k < l < audience@.len() ==> #[trigger] origin[k] < #[trigger] origin[l],
                forall|j: int|
                    0 <= j < i && (#[trigger] self.listeners@[j]).channel@ == channel
                        ==> audience@.contains(self.listeners@[j].connection_id),
            decreases self.listeners@.len() - i,
        {
            if self.listeners[i].channel == message.channel {
                let ghost before = audience@;
                audience.push(self.listeners[i].connection_id);
                proof {
                    origin = origin.push(i as int);
                    assert forall|j: int|
                        0 <= j <= i && (#[trigger] self.listeners@[j]).channel@
                            == channel implies audience@.contains(
                        self.listeners@[j].connection_id,
                    ) by {
                        if j < i {
                            let k = choose|k: int|
                                0 <= k < before.len() && before[k]
                                    == self.listeners@[j].connection_id;
                            assert(audience@[k] == self.listeners@[j].connection_id);
                        } else {
                            assert(audience@[before.len() as int]
                                == self.listeners@[j].connection_id);
                        }
                    }
                }
            }
            i += 1;
        }
        proof {
            assert forall|k: int, l: int| 0 <= k < l < audience@.len() implies audience@[k]
                != audience@[l] by {
                assert(origin[k] < origin[l]);
                assert(!(self.listeners@[origin[k]].channel@ == self.listeners@[origin[l]].channel@
                    && self.listeners@[origin[k]].connection_id
                    == self.listeners@[origin[l]].connection_id));
            }
            assert forall|c: ConnectionId|
                audience@.to_set().contains(c) == self@.audience(channel).contains(c) by {
                if audience@.to_set().contains(c) {
                    let k = choose|k: int| 0 <= k < audience@.len() && audience@[k] == c;
                    assert(self.listeners@[origin[k]].channel@ == channel);
                }
                if self@.audience(channel).contains(c) {
                    let j = choose|j: int|
                        0 <= j < self.listeners@.len() && (#[trigger] self.listeners@[j]).channel@
                            == channel && self.listeners@[j].connection_id == c;
                    assert(audience@.contains(self.listeners@[j].connection_id));
                }
            }
            assert(audience@.to_set() =~= self@.audience(channel));
        }
        audience
    }

    /// The index of the binding of a channel, if it has one.
    fn binding_of(responders: &Vec<Responder>, channel: &String) -> (r: Option<usize>)
        ensures
            match r {
                Some(i) => i < responders@.len() && responders@[i as int].channel@ == channel@,
                None => !is_bound(responders@, channel@),
            },
    {
        let mut i: usize = 0;
        while i < responders.len()
            invariant
                i <= responders@.len(),
                forall|j: int| 0 <= j < i ==> (#[trigger] responders@[j]).channel@ != channel@,
            decreases responders@.len() - i,
        {
            if responders[i].channel == *channel {
                return Some(i);
            }
            i += 1;
        }
        None
    }

    /// Takes in a request. Where the channel has a responder, nothing is
    /// kept and the request is handed back with the responder that is to
    /// answer it now; where it has none, the request joins the end of the
    /// channel's queue and nothing is handed back.
    pub fn request(&mut self, connection_id: ConnectionId, message: RequestMessage) -> (r: Option<
        Dispatch,
    >)
        ensures
            final(self)@ == old(self)@.request(connection_id, message@),
            final(self)@.well_formed(),
            match old(self)@.responder(message.channel@) {
                Some(responder) => r is Some && r->0@ == (DispatchView {
                    responder,
                    requester: connection_id,
                    message: message@,
                }),
                None => r is None,
            },
    {
        proof {
            use_type_invariant(&*self);
            lemma_tables_in_order(self.listeners@, self.responders@, self.requests@);
        }
        match Self::binding_of(&self.responders, &message.channel) {
            Some(i) => {
                proof {
                    lemma_binding(self.responders@, i as int);
                }
                Some(
                    Dispatch {
                        responder: self.responders[i].connection_id,
                        requester: connection_id,
                        message,
                    },
                )
            },
            None => {
                let mut taken = Broker::new();
                std::mem::swap(self, &mut taken);
                let Broker { listeners, responders, requests } = taken;
                let mut requests = requests;
                let ghost before = requests@;
                let ghost channel = message.channel@;
                let ghost added = RequesterView { connection_id, message: message@ };
                requests.push(Requester { connection_id, message });
                proof {
                    let tables = tables_of(listeners@, responders@, before);
                    let after = tables_of(listeners@, responders@, requests@);
                    assert(requests@.drop_last() =~= before);
                    assert(requests@.last()@ == added);
                    assert(after.requests =~= tables.request(connection_id, added.message).requests);
                    assert forall|i: int, j: int|
                        0 <= i < requests@.len() && 0 <= j < responders@.len() implies (
                    #[trigger] requests@[i]).message.channel@ != (
                    #[trigger] responders@[j]).channel@ by {
                        if i < before.len() {
                            assert(before[i].message.channel@ != responders@[j].channel@);
                        }
                    }
                    lemma_tables_in_order(listeners@, responders@, requests@);
                }
                *self = Broker { listeners, responders, requests };
                None
            },
        }
    }

    /// Takes the oldest request that waits on a channel out of its queue
    /// and hands it out; nothing where none waits.
    fn take_oldest(&mut self, channel: &String) -> (r: Option<Requester>)
        ensures
            final(self)@ == old(self)@.consume(channel@),
            final(self)@.well_formed(),
            match r {
                Some(requester) => old(self)@.backlog(channel@).len() > 0 && requester@ == old(self)@.backlog(channel@)[0],
                None => old(self)@.backlog(channel@).len() == 0,
            },
    {
        proof {
            use_type_invariant(&*self);
            lemma_tables_in_order(self.listeners@, self.responders@, self.requests@);
        }
        let mut found: Option<usize> = None;
        let mut i: usize = 0;
        while i < self.requests.len() && found.is_none()
            invariant
                i <= self.requests@.len(),
                match found {
                    Some(k) => k < self.requests@.len() && self.requests@[k as int].message.channel@
                        == channel@ && forall|j: int|
                        0 <= j < k ==> (#[trigger] self.requests@[j]).message.channel@
                            != channel@,
                    None => forall|j: int|
                        0 <= j < i ==> (#[trigger] self.requests@[j]).message.channel@
                            != channel@,
                },
            decreases self.requests@.len() - i, if found is None { 1nat } else { 0nat },
        {
            if self.requests[i].message.channel == *channel {
                found = Some(i);
            } else {
                i += 1;
            }
        }
        match found {
            None => {
                proof {
                    lemma_pending_on_members(self.requests@, channel@);
                }
                None
            },
            Some(k) => {
                let mut taken = Broker::new();
                std::mem::swap(self, &mut taken);
                let Broker { listeners, responders, requests } = taken;
                let mut requests = requests;
                let ghost before = requests@;
                let requester = requests.remove(k);
                proof {
                    let tables = tables_of(listeners@, responders@, before);
                    let after = tables_of(listeners@, responders@, requests@);
                    let front = before.subrange(0, k as int);
                    assert forall|j: int| 0 <= j < front.len() implies (
                    #[trigger] front[j]).message.channel@ != channel@ by {
                        assert(front[j] == before[j]);
                    }
                    lemma_pending_on_members(front, channel@);
                    lemma_pending_on_remove(before, k as int, channel@);
                    let back = pending_on(before.subrange(k + 1, before.len() as int), channel@);
                    assert(pending_on(front, channel@) =~= Seq::<RequesterView>::empty());
                    assert(pending_on(before, channel@) =~= seq![requester@] + back);
                    assert(pending_on(requests@, channel@) =~= back);
                    assert(pending_on(before, channel@).drop_first() =~= back);
                    assert forall|other: Seq<char>| #[trigger]
                        after.requests[other] == tables.consume(channel@).requests[other] by {
                        if other != channel@ {
                            lemma_pending_on_remove(before, k as int, other);
                        }
                    }
                    assert(after.requests =~= tables.consume(channel@).requests);
                    assert forall|i: int, j: int|
                        0 <= i < requests@.len() && 0 <= j < responders@.len() implies (
                    #[trigger] requests@[i]).message.channel@ != (
                    #[trigger] responders@[j]).channel@ by {
                        if i < k {
                            assert(requests@[i] == before[i]);
                        } else {
                            assert(requests@[i] == before[i + 1]);
                        }
                    }
                    lemma_tables_in_order(listeners@, responders@, requests@);
                }
                *self = Broker { listeners, responders, requests };
                Some(requester)
            },
        }
    }

    /// Makes a connection the responder of the channel that the message
    /// names, in place of any responder before it, which is not told. The
    /// requests that waited on the channel leave the queue and are handed
    /// out for the new responder, oldest first.
    pub fn respond(&mut self, connection_id: ConnectionId, message: ResponseMessage) -> (r: Vec<
        Dispatch,
    >)
        ensures
            final(self)@ == old(self)@.respond(connection_id, message.channel@),
            final(self)@.well_formed(),
            dispatches_view(r@) == handed_over(
                connection_id,
                old(self)@.backlog(message.channel@),
            ),
    {
        let ghost channel = message.channel@;
        let ghost start = self@;
        let mut handed: Vec<Dispatch> = Vec::new();
        proof {
            use_type_invariant(&*self);
            lemma_tables_in_order(self.listeners@, self.responders@, self.requests@);
            assert(start.requests[channel].skip(0) =~= start.requests[channel]);
        }
        loop
            invariant
                channel == message.channel@,
                start == old(self)@,
                self@.well_formed(),
                self@.listeners == start.listeners,
                self@.responders == start.responders,
                forall|other: Seq<char>|
                    other != channel ==> #[trigger] self@.requests[other] == start.requests[other],
                handed@.len() <= start.requests[channel].len(),
                self@.requests[channel] == start.requests[channel].skip(handed@.len() as int),
                dispatches_view(handed@) == handed_over(
                    connection_id,
                    start.requests[channel].take(handed@.len() as int),
                ),
            ensures
                self@.requests[channel].len() == 0,
            decreases self@.requests[channel].len(),
        {
            let ghost before = self@;
            let ghost done = dispatches_view(handed@);
            match self.take_oldest(&message.channel) {
                None => {
                    break;
                },
                Some(requester) => {
                    let ghost count = handed@.len() as int;
                    handed.push(
                        Dispatch {
                            responder: connection_id,
                            requester: requester.connection_id,
                            message: requester.message,
                        },
                    );
                    proof {
                        let queue = start.requests[channel];
                        assert(before.requests[channel][0] == queue[count]);
                        assert(self@.requests[channel] =~= queue.skip(count + 1));
                        assert(dispatches_view(handed@) =~= done.push(handed@.last()@));
                        assert(handed_over(connection_id, queue.take(count + 1)) =~= handed_over(
                            connection_id,
                            queue.take(count),
                        ).push(dispatch_of(connection_id, queue[count])));
                        assert forall|other: Seq<char>| other != channel implies (
                        #[trigger] self@.requests[other]) == start.requests[other] by {
                            assert(before.requests[other] == start.requests[other]);
                        }
                    }
                },
            }
        }
        proof {
            use_type_invariant(&*self);
            assert(start.requests[channel].take(handed@.len() as int) =~= start.requests[channel]);
        }
        let ghost drained = self@;
        let mut taken = Broker::new();
        std::mem::swap(self, &mut taken);
        let Broker { listeners, responders, requests } = taken;
        let mut responders = responders;
        let ghost before = responders@;
        let found = Self::binding_of(&responders, &message.channel);
        match found {
            Some(i) => {
                responders.set(i, Responder { connection_id, channel: message.channel });
            },
            None => {
                responders.push(Responder { connection_id, channel: message.channel });
            },
        }
        proof {
            let at = match found {
                Some(i) => i as int,
                None => before.len() as int,
            };
            assert(responders@[at].channel@ == channel && responders@[at].connection_id
                == connection_id);
            assert forall|i: int, j: int| 0 <= i < j < responders@.len() implies (
            #[trigger] responders@[i]).channel@ != (#[trigger] responders@[j]).channel@ by {
                if i != at && j != at {
                    assert(responders@[i] == before[i] && responders@[j] == before[j]);
                } else if i == at {
                    if j < before.len() {
                        assert(responders@[j] == before[j]);
                        if found is Some {
                            assert(before[i].channel@ != before[j].channel@);
                        }
                    }
                } else {
                    assert(responders@[i] == before[i]);
                    if found is Some {
                        assert(before[i].channel@ != before[j].channel@);
                    }
                }
            }
            assert forall|key: Seq<char>|
                bindings(responders@).contains_key(key) == bindings(before).insert(
                    channel,
                    connection_id,
                ).contains_key(key) by {
                if is_bound(responders@, key) {
                    let k = choose|k: int|
                        0 <= k < responders@.len() && (#[trigger] responders@[k]).channel@ == key;
                    if k != at {
                        assert(before[k].channel@ == key);
                    }
                }
                if is_bound(before, key) {
                    let k = choose|k: int|
                        0 <= k < before.len() && (#[trigger] before[k]).channel@ == key;
                    assert(responders@[k].channel@ == key);
                }
                if key == channel {
                    assert(responders@[at].channel@ == key);
                }
            }
            assert forall|key: Seq<char>| bindings(responders@).contains_key(key) implies bindings(
                responders@,
            )[key] == bindings(before).insert(channel, connection_id)[key] by {
                let k = choose|k: int|
                    0 <= k < responders@.len() && (#[trigger] responders@[k]).channel@ == key;
                lemma_binding(responders@, k);
                if k != at {
                    assert(before[k] == responders@[k]);
                    lemma_binding(before, k);
                    assert(responders@[k].channel@ != responders@[at].channel@);
                }
            }
            assert(bindings(responders@) =~= bindings(before).insert(channel, connection_id));
            lemma_pending_on_members(requests@, channel);
            assert forall|i: int, j: int|
                0 <= i < requests@.len() && 0 <= j < responders@.len() implies (
            #[trigger] requests@[i]).message.channel@ != (#[trigger] responders@[j]).channel@ by {
                if j != at {
                    assert(responders@[j] == before[j]);
                    assert(requests@[i].message.channel@ != before[j].channel@);
                }
            }
            let after = tables_of(listeners@, responders@, requests@);
            assert(drained == tables_of(listeners@, before, requests@));
            assert forall|other: Seq<char>| #[trigger]
                after.requests[other] == start.respond(connection_id, channel).requests[other] by {
                assert(after.requests[other] == drained.requests[other]);
                if other == channel {
                    assert(drained.requests[channel] =~= Seq::<RequesterView>::empty());
                }
            }
            assert(after.requests =~= start.respond(connection_id, channel).requests);
            lemma_tables_in_order(listeners@, responders@, requests@);
        }
        *self = Broker { listeners, responders, requests };
        handed
    }

    /// Removes a connection from the tables: from the listeners of every
    /// channel, from every channel whose responder it is, and its requests
    /// from every queue. The requests of others stay where they wait.
    pub fn disconnect(&mut self, connection_id: ConnectionId)
        ensures
            final(self)@ == old(self)@.disconnect(connection_id),
            final(self)@.well_formed(),
    {
        proof {
            use_type_invariant(&*self);
        }
        let ghost start = self@;
        let mut taken = Broker::new();
        std::mem::swap(self, &mut taken);
        let Broker { listeners, responders, requests } = taken;
        let ghost old_listeners = listeners@;
        let ghost old_responders = responders@;
        let ghost old_requests = requests@;

        let mut kept_listeners: Vec<Listener> = Vec::new();
        let ghost mut origin: Seq<int> = Seq::empty();
        for entry in it: listeners
            invariant
                it.seq() == old_listeners,
                origin.len() == kept_listeners@.len(),
                forall|k: int|
                    0 <= k < kept_listeners@.len() ==> 0 <= #[trigger] origin[k] < it.index()
                        && old_listeners[origin[k]] == kept_listeners@[k]
                        && kept_listeners@[k].connection_id != connection_id,
                forall|k: int, l: int|
                    0 <= k < l < kept_listeners@.len() ==> #[trigger] origin[k]
                        < #[trigger] origin[l],
                forall|j: int|
                    0 <= j < it.index() && (#[trigger] old_listeners[j]).connection_id
                        != connection_id ==> exists|k: int|
                        0 <= k < kept_listeners@.len() && #[trigger] origin[k] == j,
        {
            if entry.connection_id != connection_id {
                let ghost index = it.index();
                let ghost before = origin;
                kept_listeners.push(entry);
                proof {
                    origin = origin.push(index);
                    assert forall|j: int|
                        0 <= j < index + 1 && (#[trigger] old_listeners[j]).connection_id
                            != connection_id implies exists|k: int|
                        0 <= k < kept_listeners@.len() && #[trigger] origin[k] == j by {
                        if j < index {
                            let k = choose|k: int| 0 <= k < before.len() && #[trigger] before[k] == j;
                            assert(origin[k] == j);
                        } else {
                            assert(origin[before.len() as int] == j);
                        }
                    }
                }
            }
        }
        proof {
            assert forall|i: int, j: int| 0 <= i < j < kept_listeners@.len() implies !((
            #[trigger] kept_listeners@[i]).channel@ == (#[trigger] kept_listeners@[j]).channel@
                && kept_listeners@[i].connection_id == kept_listeners@[j].connection_id) by {
                assert(origin[i] < origin[j]);
                assert(!(old_listeners[origin[i]].channel@ == old_listeners[origin[j]].channel@
                    && old_listeners[origin[i]].connection_id
                    == old_listeners[origin[j]].connection_id));
            }
            assert forall|channel: Seq<char>| #[trigger]
                listening(kept_listeners@, channel) == listening(old_listeners, channel).remove(
                    connection_id,
                ) by {
                assert forall|c: ConnectionId|
                    listening(kept_listeners@, channel).contains(c) == listening(
                        old_listeners,
                        channel,
                    ).remove(connection_id).contains(c) by {
                    if listening(kept_listeners@, channel).contains(c) {
                        let k = choose|k: int|
                            0 <= k < kept_listeners@.len() && (
                            #[trigger] kept_listeners@[k]).channel@ == channel
                                && kept_listeners@[k].connection_id == c;
                        assert(old_listeners[origin[k]].channel@ == channel);
                    }
                    if listening(old_listeners, channel).remove(connection_id).contains(c) {
                        let j = choose|j: int|
                            0 <= j < old_listeners.len() && (#[trigger] old_listeners[j]).channel@
                                == channel && old_listeners[j].connection_id == c;
                        let k = choose|k: int|
                            0 <= k < kept_listeners@.len() && #[trigger] origin[k] == j;
                        assert(kept_listeners@[k].channel@ == channel);
                    }
                }
                assert(listening(kept_listeners@, channel) =~= listening(
                    old_listeners,
                    channel,
                ).remove(connection_id));
            }
        }

        let mut kept_responders: Vec<Responder> = Vec::new();
        let ghost mut source: Seq<int> = Seq::empty();
        for entry in it: responders
            invariant
                it.seq() == old_responders,
                source.len() == kept_responders@.len(),
                forall|k: int|
                    0 <= k < kept_responders@.len() ==> 0 <= #[trigger] source[k] < it.index()
                        && old_responders[source[k]] == kept_responders@[k]
                        && kept_responders@[k].connection_id != connection_id,
                forall|k: int, l: int|
                    0 <= k < l < kept_responders@.len() ==> #[trigger] source[k]
                        < #[trigger] source[l],
                forall|j: int|
                    0 <= j < it.index() && (#[trigger] old_responders[j]).connection_id
                        != connection_id ==> exists|k: int|
                        0 <= k < kept_responders@.len() && #[trigger] source[k] == j,
        {
            if entry.connection_id != connection_id {
                let ghost index = it.index();
                let ghost before = source;
                kept_responders.push(entry);
                proof {
                    source = source.push(index);
                    assert forall|j: int|
                        0 <= j < index + 1 && (#[trigger] old_responders[j]).connection_id
                            != connection_id implies exists|k: int|
                        0 <= k < kept_responders@.len() && #[trigger] source[k] == j by {
                        if j < index {
                            let k = choose|k: int| 0 <= k < before.len() && #[trigger] before[k] == j;
                            assert(source[k] == j);
                        } else {
                            assert(source[before.len() as int] == j);
                        }
                    }
                }
            }
        }
        proof {
            assert forall|i: int, j: int| 0 <= i < j < kept_responders@.len() implies (
            #[trigger] kept_responders@[i]).channel@ != (#[trigger] kept_responders@[j]).channel@ by {
                assert(source[i] < source[j]);
                assert(old_responders[source[i]].channel@ != old_responders[source[j]].channel@);
            }
            let goal = start.disconnect(connection_id).responders;
            assert forall|key: Seq<char>|
                bindings(kept_responders@).contains_key(key) == goal.contains_key(key) by {
                if is_bound(kept_responders@, key) {
                    let k = choose|k: int|
                        0 <= k < kept_responders@.len() && (#[trigger] kept_responders@[k]).channel@
                            == key;
                    assert(old_responders[source[k]].channel@ == key);
                    lemma_binding(old_responders, source[k]);
                }
                if goal.contains_key(key) {
                    let j = choose|j: int|
                        0 <= j < old_responders.len() && (#[trigger] old_responders[j]).channel@
                            == key;
                    lemma_binding(old_responders, j);
                    let k = choose|k: int|
                        0 <= k < kept_responders@.len() && #[trigger] source[k] == j;
                    assert(kept_responders@[k].channel@ == key);
                }
            }
            assert forall|key: Seq<char>| bindings(kept_responders@).contains_key(
                key,
            ) implies bindings(kept_responders@)[key] == goal[key] by {
                let k = choose|k: int|
                    0 <= k < kept_responders@.len() && (#[trigger] kept_responders@[k]).channel@
                        == key;
                lemma_binding(kept_responders@, k);
                lemma_binding(old_responders, source[k]);
            }
            assert(bindings(kept_responders@) =~= goal);
        }

        let mut kept_requests: Vec<Requester> = Vec::new();
        for entry in it: requests
            invariant
                it.seq() == old_requests,
                forall|channel: Seq<char>| #[trigger]
                    pending_on(kept_requests@, channel) == without(
                        pending_on(old_requests.take(it.index()), channel),
                        connection_id,
                    ),
                unanswered(old_requests, old_responders),
                unanswered(kept_requests@, old_responders),
        {
            let ghost index = it.index();
            let ghost before = kept_requests@;
            let ghost prefix = old_requests.take(index);
            let ghost next = old_requests.take(index + 1);
            proof {
                assert(next.drop_last() =~= prefix);
                assert(next.last() == entry);
            }
            if entry.connection_id != connection_id {
                kept_requests.push(entry);
                proof {
                    assert(kept_requests@.drop_last() =~= before);
                }
            }
            proof {
                assert forall|i: int, j: int|
                    0 <= i < kept_requests@.len() && 0 <= j < old_responders.len() implies (
                #[trigger] kept_requests@[i]).message.channel@ != (
                #[trigger] old_responders[j]).channel@ by {
                    if i < before.len() {
                        assert(kept_requests@[i] == before[i]);
                    } else {
                        assert(kept_requests@[i] == old_requests[index]);
                    }
                }
                assert forall|channel: Seq<char>| #[trigger]
                    pending_on(kept_requests@, channel) == without(
                        pending_on(next, channel),
                        connection_id,
                    ) by {
                    assert(pending_on(before, channel) == without(
                        pending_on(prefix, channel),
                        connection_id,
                    ));
                    if entry.message.channel@ == channel {
                        let queue = pending_on(next, channel);
                        assert(queue.drop_last() =~= pending_on(prefix, channel));
                        assert(queue.last() == entry@);
                    }
                }
            }
        }
        proof {
            assert(old_requests.take(old_requests.len() as int) =~= old_requests);
            assert forall|i: int, j: int|
                0 <= i < kept_requests@.len() && 0 <= j < kept_responders@.len() implies (
            #[trigger] kept_requests@[i]).message.channel@ != (
            #[trigger] kept_responders@[j]).channel@ by {
                assert(kept_requests@[i].message.channel@ != old_responders[source[j]].channel@);
            }
            let after = tables_of(kept_listeners@, kept_responders@, kept_requests@);
            assert(after.listeners =~= start.disconnect(connection_id).listeners);
            assert(after.requests =~= start.disconnect(connection_id).requests);
            lemma_tables_in_order(kept_listeners@, kept_responders@, kept_requests@);
        }
        *self = Broker {
            listeners: kept_listeners,
            responders: kept_responders,
            requests: kept_requests,
        };
    }

    /// Whether any of the three tables holds the connection.
    pub fn mentions(&self, connection_id: ConnectionId) -> (r: bool)
        ensures
            r == self@.mentions(connection_id),
    {
        let mut i: usize = 0;
        while i < self.listeners.len()
            invariant
                i <= self.listeners@.len(),
                forall|j: int|
                    0 <= j < i ==> (#[trigger] self.listeners@[j]).connection_id != connection_id,
            decreases self.listeners@.len() - i,
        {
            if self.listeners[i].connection_id == connection_id {
                assert(self@.listens(connection_id, self.listeners@[i as int].channel@));
                return true;
            }
            i += 1;
        }
        proof {
            use_type_invariant(self);
        }
        let mut k: usize = 0;
        while k < self.responders.len()
            invariant
                k <= self.responders@.len(),
                distinct_channels(self.responders@),
                forall|j: int|
                    0 <= j < k ==> (#[trigger] self.responders@[j]).connection_id != connection_id,
            decreases self.responders@.len() - k,
        {
            if self.responders[k].connection_id == connection_id {
                proof {
                    lemma_binding(self.responders@, k as int);
                    assert(self@.answers(connection_id, self.responders@[k as int].channel@));
                }
                return true;
            }
            k += 1;
        }
        let mut n: usize = 0;
        while n < self.requests.len()
            invariant
                n <= self.requests@.len(),
                forall|j: int|
                    0 <= j < n ==> (#[trigger] self.requests@[j]).connection_id != connection_id,
            decreases self.requests@.len() - n,
        {
            if self.requests[n].connection_id == connection_id {
                proof {
                    let channel = self.requests@[n as int].message.channel@;
                    lemma_pending_on_holds(self.requests@, n as int);
                    let at = choose|at: int|
                        0 <= at < pending_on(self.requests@, channel).len() && pending_on(
                            self.requests@,
                            channel,
                        )[at] == self.requests@[n as int]@;
                    assert(self@.requests[channel][at].connection_id == connection_id);
                    assert(self@.waits(connection_id, channel));
                }
                return true;
            }
            n += 1;
        }
        proof {
            assert forall|channel: Seq<char>|
                !self@.listens(connection_id, channel) && !self@.answers(connection_id, channel)
                    && !self@.waits(connection_id, channel) by {
                if self@.answers(connection_id, channel) {
                    let j = choose|j: int|
                        0 <= j < self.responders@.len() && (#[trigger] self.responders@[j]).channel@
                            == channel;
                    lemma_binding(self.responders@, j);
                }
                if self@.waits(connection_id, channel) {
                    lemma_pending_on_members(self.requests@, channel);
                    let at = choose|at: int|
                        0 <= at < self@.requests[channel].len() && (
                        #[trigger] self@.requests[channel][at]).connection_id == connection_id;
                    let j = choose|j: int|
                        0 <= j < self.requests@.len() && (#[trigger] self.requests@[j])@
                            == pending_on(self.requests@, channel)[at];
                    assert(self.requests@[j].connection_id == connection_id);
                }
            }
        }
        false
    }

    /// Takes the oldest request that waits on a channel out of its queue
    /// and hands it out; nothing where none waits.
    pub fn consume_request(&mut self, channel: String) -> (r: Option<Requester>)
        ensures
            final(self)@ == old(self)@.consume(channel@),
            final(self)@.well_formed(),
            match r {
                Some(requester) => old(self)@.backlog(channel@).len() > 0 && requester@ == old(self)@.backlog(channel@)[0],
                None => old(self)@.backlog(channel@).len() == 0,
            },
    {
        self.take_oldest(&channel)
    }
}

/// A request that is to be handed to a responder, whose answer goes to the
/// requester.
#[derive(Debug)]
pub struct Dispatch {
    pub responder: ConnectionId,
    pub requester: ConnectionId,
    pub message: RequestMessage,
}

/// View of a [`Dispatch`].
pub struct DispatchView {
    pub responder: ConnectionId,
    pub requester: ConnectionId,
    pub message: EnvelopeView,
}

impl View for Dispatch {
    type V = DispatchView;

    open spec fn view(&self) -> DispatchView {
        DispatchView {
            responder: self.responder,
            requester: self.requester,
            message: self.message@,
        }
    }
}

impl Dispatch {
    /// The response that goes to the requester when the responder has
    /// answered with `payload`: the payload, on the channel of the request.
    pub fn answer(&self, payload: Params) -> (r: ResponseMessage)
        ensures
            r@ == (EnvelopeView { channel: self@.message.channel, payload: payload@ }),
    {
        ResponseMessage { payload, channel: self.message.channel.clone() }
    }
}

/// The views of a list of dispatches, in order.
pub open spec fn dispatches_view(dispatches: Seq<Dispatch>) -> Seq<DispatchView> {
    dispatches.map_values(|d: Dispatch| d@)
}

/// A waiting request as it is handed to a responder.
pub open spec fn dispatch_of(responder: ConnectionId, request: RequesterView) -> DispatchView {
    DispatchView { responder, requester: request.connection_id, message: request.message }
}

/// The requests of a queue as they are handed to a responder, in order.
pub open spec fn handed_over(responder: ConnectionId, queue: Seq<RequesterView>) -> Seq<
    DispatchView,
> {
    queue.map_values(|request: RequesterView| dispatch_of(responder, request))
}

} // verus!
