//! Connectivity-based routing.
//!
//! Every agent announces itself with beacons and remembers when it last
//! heard each neighbour. A payload is flooded, and an agent passes it on
//! only when it has heard the destination at least as recently as the agent
//! it got the payload from.

pub use super::routing::RoutableMessage;

use super::routing::{
    dedup, due_requests, first_of_each, long_ago, queue_due, refresh, refreshed,
};
use crate::model::message::{event_view, lemma_views_push, views, Message, MessageType, RequestMessage};
use crate::walk::is_walk;
use std::collections::HashMap;
use vstd::prelude::*;

verus! {

broadcast use vstd::std_specs::hash::group_hash_axioms;

/// Ticks between two beacons of an agent.
pub const CBR_BEACON_PERIOD: u32 = 100;

/// Ticks after which an unacknowledged request is sent again.
pub const CBR_RETRY_PERIOD: u32 = 5000;

/// Age, in ticks, beyond which a payload in flight is no longer passed on.
pub const CBR_DROP_TIMEOUT: u32 = 1000;

/// The traffic of the protocol.
#[derive(Debug, Clone, Copy, PartialEq, Eq)]
pub enum CBRMessage {
    /// The sender is alive.
    Beacon(u32),
    /// A payload in flight: the payload, its destination, the age of the
    /// sender's hint for the destination, and the tick of this transmission.
    RoutingRequest((RoutableMessage, u32, u32, u32)),
}

impl View for CBRMessage {
    type V = CBRMessage;

    open spec fn view(&self) -> CBRMessage {
        *self
    }
}

/// The age at tick `now` of the hint for `dst`: the ticks since `dst` was
/// last heard, or `u32::MAX` when it never was.
pub open spec fn hint_age(table: Map<u32, u32>, dst: u32, now: u32) -> u32 {
    if table.contains_key(dst) {
        (now - table[dst]) as u32
    } else {
        u32::MAX
    }
}

/// Whether an agent passes on a payload for `dst` that came with the hint
/// age `min_hint`: it does when it has never heard `dst`, or has heard it
/// at least as recently as the sender.
pub open spec fn passes_on(table: Map<u32, u32>, dst: u32, min_hint: u32, now: u32) -> bool {
    !table.contains_key(dst) || now - table[dst] <= min_hint
}

/// The message with which `entry` of the queue is flooded at tick `now`.
pub open spec fn flooded(table: Map<u32, u32>, entry: (RoutableMessage, u32), now: u32) -> MessageType<
    CBRMessage,
> {
    MessageType::Comm(
        CBRMessage::RoutingRequest((entry.0, entry.1, hint_age(table, entry.1, now), now)),
    )
}

/// The retry slots after every payload of the queue was transmitted at tick
/// `now`.
pub open spec fn refreshed_all(
    slots: Map<u32, (RequestMessage, i32)>,
    pending: Seq<(RoutableMessage, u32)>,
    now: u32,
) -> Map<u32, (RequestMessage, i32)>
    decreases pending.len(),
{
    if pending.len() == 0 {
        slots
    } else {
        refreshed(refreshed_all(slots, pending.drop_last(), now), pending.last().0, now)
    }
}

/// Transmissions free no retry slot and make none.
pub proof fn lemma_refreshed_all_dom(
    slots: Map<u32, (RequestMessage, i32)>,
    pending: Seq<(RoutableMessage, u32)>,
    now: u32,
)
    ensures
        refreshed_all(slots, pending, now).dom() == slots.dom(),
    decreases pending.len(),
{
    if pending.len() > 0 {
        lemma_refreshed_all_dom(slots, pending.drop_last(), now);
        let before = refreshed_all(slots, pending.drop_last(), now);
        assert(refreshed(before, pending.last().0, now).dom() =~= before.dom());
    }
}

/// The mathematical content of a [`CbrState`].
pub ghost struct CbrView {
    /// The agent that runs the protocol.
    pub my_id: u32,
    /// The tick of the last activation.
    pub clock: u32,
    /// The tick of the last beacon.
    pub last_transmission: u32,
    /// The tick at which each agent was last heard.
    pub table: Map<u32, u32>,
    /// Payloads waiting for transmission, each with its destination.
    pub pending: Seq<(RoutableMessage, u32)>,
    /// The requests that wait for their acknowledgement, by id, each with
    /// the tick of its last transmission.
    pub retries: Map<u32, (RequestMessage, i32)>,
}

impl CbrView {
    /// Neither the last beacon nor any hint is in the future.
    pub open spec fn wf(self) -> bool {
        &&& self.last_transmission <= self.clock
        &&& forall|agent: u32| #[trigger]
            self.table.contains_key(agent) ==> self.table[agent] <= self.clock
    }

    /// The state in which agent `my_id` starts at tick `now`: it has heard
    /// itself and nobody else.
    pub open spec fn init(my_id: u32, now: u32) -> CbrView {
        CbrView {
            my_id,
            clock: now,
            last_transmission: now,
            table: Map::empty().insert(my_id, now),
            pending: Seq::empty(),
            retries: Map::empty(),
        }
    }

    /// Whether `event` can be taken in at tick `now`: a payload in flight
    /// for another agent must not claim a transmission after `now`.
    pub open spec fn accepts(self, event: Option<MessageType<CBRMessage>>, now: u32) -> bool {
        event matches Some(MessageType::Comm(CBRMessage::RoutingRequest(flight))) ==> flight.1
            != self.my_id ==> flight.3 <= now
    }

    /// Taking in what the agent was woken with at tick `now`.
    ///
    /// - A request injected at this agent gets a retry slot that is due at
    ///   once.
    /// - A payload for this agent has arrived: a request is reported to the
    ///   engine and its acknowledgement is queued for the requester, and an
    ///   acknowledgement frees the retry slot.
    /// - A payload for another agent is dropped when it has been in flight
    ///   for more than [`CBR_DROP_TIMEOUT`] ticks, and else queued when this
    ///   agent passes it on.
    /// - A beacon refreshes the hint for its sender.
    pub open spec fn receive(self, event: Option<MessageType<CBRMessage>>, now: u32) -> (
        CbrView,
        Seq<MessageType<CBRMessage>>,
    ) {
        match event {
            Some(MessageType::Request(request)) => (
                CbrView {
                    retries: self.retries.insert(request.id, (request, long_ago(CBR_RETRY_PERIOD))),
                    ..self
                },
                Seq::empty(),
            ),
            Some(MessageType::Comm(CBRMessage::RoutingRequest(flight))) => {
                let (payload, dst, min_hint, origin_time) = flight;
                if dst == self.my_id {
                    match payload {
                        RoutableMessage::Request(request) => (
                            CbrView {
                                pending: self.pending.push(
                                    (RoutableMessage::Ack(request.id), request.from),
                                ),
                                ..self
                            },
                            seq![MessageType::Request(request)],
                        ),
                        RoutableMessage::Ack(id) => (
                            CbrView { retries: self.retries.remove(id), ..self },
                            Seq::empty(),
                        ),
                    }
                } else if now - origin_time <= CBR_DROP_TIMEOUT && passes_on(
                    self.table,
                    dst,
                    min_hint,
                    now,
                ) {
                    (CbrView { pending: self.pending.push((payload, dst)), ..self }, Seq::empty())
                } else {
                    (self, Seq::empty())
                }
            },
            Some(MessageType::Comm(CBRMessage::Beacon(from))) => (
                CbrView { table: self.table.insert(from, now), ..self },
                Seq::empty(),
            ),
            None => (self, Seq::empty()),
        }
    }

    /// Queueing the retransmissions that are due at tick `now`, the retry
    /// slots taken in the order `order`, and dropping repeated payloads.
    pub open spec fn queued(self, now: u32, order: Seq<u32>) -> CbrView {
        CbrView {
            pending: first_of_each(
                self.pending + due_requests(self.retries, order, now, CBR_RETRY_PERIOD),
            ),
            ..self
        }
    }

    /// Flooding the queue at tick `now`: every entry is broadcast with the
    /// age of this agent's hint for its destination, the retry slot of each
    /// transmitted request records the tick, and the queue is left empty.
    pub open spec fn transmit(self, now: u32) -> (CbrView, Seq<MessageType<CBRMessage>>) {
        (
            CbrView {
                pending: Seq::empty(),
                retries: refreshed_all(self.retries, self.pending, now),
                ..self
            },
            self.pending.map_values(|entry: (RoutableMessage, u32)| flooded(self.table, entry, now)),
        )
    }

    /// The beacon: sent when the period has passed since the last one.
    pub open spec fn beacon(self, now: u32) -> (CbrView, Seq<MessageType<CBRMessage>>) {
        if now - self.last_transmission >= CBR_BEACON_PERIOD {
            (
                CbrView { last_transmission: now, ..self },
                seq![MessageType::Comm(CBRMessage::Beacon(self.my_id))],
            )
        } else {
            (self, Seq::empty())
        }
    }

    /// One activation of the agent at tick `now`: the event is taken in, the
    /// due retransmissions are queued, the queue is flooded, and the beacon
    /// is sent when it is time. `order` is the order in which the retry
    /// slots are walked. The result is the new state and what the agent
    /// emits, in order.
    pub open spec fn step(self, now: u32, event: Option<MessageType<CBRMessage>>, order: Seq<u32>) -> (
        CbrView,
        Seq<MessageType<CBRMessage>>,
    ) {
        let (received, reports) = self.receive(event, now);
        let (transmitted, sent) = received.queued(now, order).transmit(now);
        let (beaconed, beacons) = transmitted.beacon(now);
        (CbrView { clock: now, ..beaconed }, reports + sent + beacons)
    }

    /// An activation keeps the state consistent when time does not go back.
    pub proof fn lemma_step_wf(self, now: u32, event: Option<MessageType<CBRMessage>>, order: Seq<u32>)
        requires
            self.wf(),
            self.clock <= now,
        ensures
            self.step(now, event, order).0.wf(),
            self.step(now, event, order).0.clock == now,
            self.step(now, event, order).0.my_id == self.my_id,
            self.step(now, event, order).0.pending == Seq::<(RoutableMessage, u32)>::empty(),
    {
    }

    /// A payload that has been in flight for too long is not passed on.
    pub proof fn lemma_stale_dropped(
        self,
        payload: RoutableMessage,
        dst: u32,
        min_hint: u32,
        origin_time: u32,
        now: u32,
    )
        requires
            dst != self.my_id,
            now - origin_time > CBR_DROP_TIMEOUT,
        ensures
            self.receive(
                Some(
                    MessageType::Comm(
                        CBRMessage::RoutingRequest((payload, dst, min_hint, origin_time)),
                    ),
                ),
                now,
            ) == (self, Seq::<MessageType<CBRMessage>>::empty()),
    {
    }

    /// An agent that has heard the destination less recently than the
    /// sender of a payload does not pass it on.
    pub proof fn lemma_less_fresh_dropped(
        self,
        payload: RoutableMessage,
        dst: u32,
        min_hint: u32,
        origin_time: u32,
        now: u32,
    )
        requires
            dst != self.my_id,
            self.table.contains_key(dst),
            now - self.table[dst] > min_hint,
        ensures
            self.receive(
                Some(
                    MessageType::Comm(
                        CBRMessage::RoutingRequest((payload, dst, min_hint, origin_time)),
                    ),
                ),
                now,
            ) == (self, Seq::<MessageType<CBRMessage>>::empty()),
    {
    }
}

/// The state of one agent that runs the protocol.
#[derive(Debug)]
pub struct CbrState {
    my_id: u32,
    clock: u32,
    last_transmission: u32,
    table: HashMap<u32, u32>,
    messages_to_send: Vec<(RoutableMessage, u32)>,
    retries: HashMap<u32, (RequestMessage, i32)>,
}

impl View for CbrState {
    type V = CbrView;

    closed spec fn view(&self) -> CbrView {
        CbrView {
            my_id: self.my_id,
            clock: self.clock,
            last_transmission: self.last_transmission,
            table: self.table@,
            pending: self.messages_to_send@,
            retries: self.retries@,
        }
    }
}

impl CbrState {
    /// Neither the last beacon nor any hint is in the future.
    pub open spec fn wf(&self) -> bool {
        self@.wf()
    }

    /// The state in which agent `my_id` starts at tick `now`, and the beacon
    /// with which it announces itself.
    pub fn new(my_id: u32, now: u32) -> (made: (CbrState, MessageType<CBRMessage>))
        ensures
            made.0.wf(),
            made.0@ == CbrView::init(my_id, now),
            made.1 == MessageType::Comm(CBRMessage::Beacon(my_id)),
    {
        let mut table: HashMap<u32, u32> = HashMap::new();
        table.insert(my_id, now);
        let state = CbrState {
            my_id,
            clock: now,
            last_transmission: now,
            table,
            messages_to_send: Vec::new(),
            retries: HashMap::new(),
        };
        (state, MessageType::Comm(CBRMessage::Beacon(my_id)))
    }

    /// The agent that runs the protocol.
    pub fn my_id(&self) -> (id: u32)
        ensures
            id == self@.my_id,
    {
        self.my_id
    }

    /// The tick at which `agent` was last heard, if it ever was.
    pub fn hint(&self, agent: u32) -> (tick: Option<u32>)
        ensures
            tick == (if self@.table.contains_key(agent) {
                Some(self@.table[agent])
            } else {
                None
            }),
    {
        match self.table.get(&agent) {
            Some(tick) => Some(*tick),
            None => None,
        }
    }

    /// The tick at which the request `id` was last transmitted, if it still
    /// waits for its acknowledgement.
    pub fn last_sent(&self, id: u32) -> (tick: Option<i32>)
        ensures
            tick == (if self@.retries.contains_key(id) {
                Some(self@.retries[id].1)
            } else {
                None
            }),
    {
        match self.retries.get(&id) {
            Some(slot) => Some(slot.1),
            None => None,
        }
    }

    /// Takes in what the agent was woken with.
    fn receive(
        &mut self,
        event: Option<Message<CBRMessage>>,
        now: u32,
        out: &mut Vec<MessageType<CBRMessage>>,
    )
        requires
            old(self).wf(),
            old(self)@.clock <= now,
            old(self)@.accepts(event_view(event), now),
            old(out)@.len() == 0,
        ensures
            final(self)@ == old(self)@.receive(event_view(event), now).0,
            views(final(out)@) == old(self)@.receive(event_view(event), now).1,
            final(self)@.last_transmission <= now,
            forall|agent: u32| #[trigger]
                final(self)@.table.contains_key(agent) ==> final(self)@.table[agent] <= now,
    {
        proof {
            assert(views(out@) =~= Seq::<MessageType<CBRMessage>>::empty());
        }
        match event {
            Some(envelope) => match envelope.data {
                MessageType::Request(request) => {
                    self.retries.insert(request.id, (request, -(CBR_RETRY_PERIOD as i32)));
                },
                MessageType::Comm(CBRMessage::RoutingRequest(flight)) => {
                    let payload = flight.0;
                    let dst = flight.1;
                    let min_hint = flight.2;
                    let origin_time = flight.3;
                    if dst == self.my_id {
                        match payload {
                            RoutableMessage::Request(request) => {
                                out.push(MessageType::Request(request));
                                self.messages_to_send.push(
                                    (RoutableMessage::Ack(request.id), request.from),
                                );
                                proof {
                                    assert(views(out@) =~= seq![
                                        MessageType::<CBRMessage>::Request(request),
                                    ]);
                                }
                            },
                            RoutableMessage::Ack(id) => {
                                self.retries.remove(&id);
                            },
                        }
                    } else if now - origin_time <= CBR_DROP_TIMEOUT {
                        let fresh = match self.table.get(&dst) {
                            Some(heard) => {
                                assert(self@.table.contains_key(dst));
                                now - *heard <= min_hint
                            },
                            None => true,
                        };
                        if fresh {
                            self.messages_to_send.push((payload, dst));
                        }
                    }
                },
                MessageType::Comm(CBRMessage::Beacon(from)) => {
                    self.table.insert(from, now);
                },
            },
            None => {},
        }
    }

    /// Queues the retransmissions that are due and drops repeated payloads;
    /// tells the order in which the retry slots were walked.
    fn queue(&mut self, now: u32) -> (order: Ghost<Seq<u32>>)
        ensures
            is_walk(order@, old(self)@.retries.dom()),
            final(self)@ == old(self)@.queued(now, order@),
    {
        let order = queue_due(&self.retries, now, CBR_RETRY_PERIOD, &mut self.messages_to_send);
        dedup(&mut self.messages_to_send);
        order
    }

    /// Floods the queue.
    fn transmit(&mut self, now: u32, out: &mut Vec<MessageType<CBRMessage>>)
        requires
            now <= i32::MAX,
            old(self)@.last_transmission <= now,
            forall|agent: u32| #[trigger]
                old(self)@.table.contains_key(agent) ==> old(self)@.table[agent] <= now,
        ensures
            final(self)@ == old(self)@.transmit(now).0,
            views(final(out)@) == views(old(out)@) + old(self)@.transmit(now).1,
    {
        let ghost table = self@.table;
        let ghost slots = self@.retries;
        let ghost pending = self@.pending;
        let mut i: usize = 0;
        proof {
            assert(pending.take(0) =~= Seq::<(RoutableMessage, u32)>::empty());
            assert(views(out@) =~= views(old(out)@) + pending.take(0).map_values(
                |entry: (RoutableMessage, u32)| flooded(table, entry, now),
            ));
        }
        while i < self.messages_to_send.len()
            invariant
                i <= self.messages_to_send.len(),
                now <= i32::MAX,
                table == old(self)@.table,
                slots == old(self)@.retries,
                pending == old(self)@.pending,
                forall|agent: u32| #[trigger] table.contains_key(agent) ==> table[agent] <= now,
                self@ == (CbrView { retries: self@.retries, ..old(self)@ }),
                self@.retries == refreshed_all(slots, pending.take(i as int), now),
                views(out@) == views(old(out)@) + pending.take(i as int).map_values(
                    |entry: (RoutableMessage, u32)| flooded(table, entry, now),
                ),
            decreases self.messages_to_send.len() - i,
        {
            let entry = self.messages_to_send[i];
            let payload = entry.0;
            let dst = entry.1;
            proof {
                assert(pending.take(i + 1).drop_last() =~= pending.take(i as int));
                assert(pending.take(i + 1).last() == entry);
            }
            let age = match self.table.get(&dst) {
                Some(heard) => {
                    assert(table.contains_key(dst));
                    now - *heard
                },
                None => u32::MAX,
            };
            let ghost sent_before = out@;
            let message = MessageType::Comm(CBRMessage::RoutingRequest((payload, dst, age, now)));
            out.push(message);
            refresh(&mut self.retries, &payload, now);
            proof {
                lemma_views_push(sent_before, message);
                assert(message@ == flooded(table, entry, now));
                assert(views(out@) =~= views(old(out)@) + pending.take(i + 1).map_values(
                    |entry: (RoutableMessage, u32)| flooded(table, entry, now),
                ));
            }
            i = i + 1;
        }
        proof {
            assert(pending.take(pending.len() as int) =~= pending);
        }
        self.messages_to_send.clear();
    }

    /// Sends the beacon when it is time.
    fn beacon(&mut self, now: u32, out: &mut Vec<MessageType<CBRMessage>>)
        requires
            old(self)@.last_transmission <= now,
        ensures
            final(self)@ == old(self)@.beacon(now).0,
            views(final(out)@) == views(old(out)@) + old(self)@.beacon(now).1,
    {
        if now - self.last_transmission >= CBR_BEACON_PERIOD {
            self.last_transmission = now;
            let ghost sent_before = out@;
            let message = MessageType::Comm(CBRMessage::Beacon(self.my_id));
            out.push(message);
            proof {
                lemma_views_push(sent_before, message);
                assert(views(out@) =~= views(old(out)@) + old(self)@.beacon(now).1);
            }
        } else {
            proof {
                assert(views(out@) =~= views(old(out)@) + old(self)@.beacon(now).1);
            }
        }
    }
}

/// One activation of a CBR agent at tick `now`, woken with `event` (or with
/// nothing, after waiting in vain). Returns what the agent emits, in order.
/// The state and the emissions are those of [`CbrView::step`], for the order
/// in which the retry slots happen to be walked.
pub fn cbr_actor(state: &mut CbrState, now: u32, event: Option<Message<CBRMessage>>) -> (out: Vec<
    MessageType<CBRMessage>,
>)
    requires
        old(state).wf(),
        old(state)@.clock <= now <= i32::MAX,
        old(state)@.accepts(event_view(event), now),
    ensures
        final(state).wf(),
        exists|order: Seq<u32>|
            {
                &&& is_walk(order, old(state)@.receive(event_view(event), now).0.retries.dom())
                &&& final(state)@ == (#[trigger] old(state)@.step(now, event_view(event), order)).0
                &&& views(out@) == old(state)@.step(now, event_view(event), order).1
            },
{
    let mut out: Vec<MessageType<CBRMessage>> = Vec::new();
    state.receive(event, now, &mut out);
    let order = state.queue(now);
    state.transmit(now, &mut out);
    state.beacon(now, &mut out);
    state.clock = now;
    proof {
        let expected = old(state)@.step(now, event_view(event), order@);
        assert(views(out@) =~= expected.1);
        assert(state@ == expected.0);
    }
    out
}

} // verus!
