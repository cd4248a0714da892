//! Destination-sequenced distance-vector routing.
//!
//! Every agent keeps a routing table and broadcasts it as a heartbeat.
//! Requests and their acknowledgements travel hop by hop along the tables,
//! and a request is sent again until its acknowledgement comes back.

pub use super::routing::RoutableMessage;

use super::routing::{
    dedup, due_requests, first_of_each, long_ago, queue_due, refresh, refreshed,
};
use crate::model::message::{event_view, lemma_views_push, views, Message, MessageType, RequestMessage};
use crate::walk::{is_walk, lemma_contains_push, walk};
use std::collections::HashMap;
use vstd::prelude::*;

verus! {

broadcast use vstd::std_specs::hash::group_hash_axioms;

/// Ticks between two heartbeats of an agent.
pub const DSDV_HEARTBEAT_PERIOD: u32 = 100;

/// Ticks after which an unacknowledged request is sent again.
pub const DSDV_RETRY_PERIOD: u32 = 1000;

/// One line of a routing table: how to reach a destination.
#[derive(Debug, Clone, Copy, PartialEq, Eq, Structural)]
pub struct RoutingEntry {
    /// Freshness of the route: the tick at which it was last announced.
    pub sequence_number: u32,
    /// The neighbour to hand messages for the destination.
    pub next_hop: u32,
    /// Number of hops to the destination.
    pub metric: u64,
}

/// The traffic of the protocol.
#[derive(Debug, PartialEq, Eq)]
pub enum DSDVMessage {
    /// The sender's full routing table, and the sender.
    HeartBeat((HashMap<u32, RoutingEntry>, u32)),
    /// A payload on its way: the payload, the agent that has to pass it on,
    /// and its destination.
    RoutingRequest((RoutableMessage, u32, u32)),
}

/// The mathematical content of a [`DSDVMessage`].
pub ghost enum DsdvMessageView {
    HeartBeat(Map<u32, RoutingEntry>, u32),
    RoutingRequest(RoutableMessage, u32, u32),
}

impl View for DSDVMessage {
    type V = DsdvMessageView;

    open spec fn view(&self) -> DsdvMessageView {
        match self {
            DSDVMessage::HeartBeat(beat) => DsdvMessageView::HeartBeat(beat.0@, beat.1),
            DSDVMessage::RoutingRequest(hop) => DsdvMessageView::RoutingRequest(
                hop.0,
                hop.1,
                hop.2,
            ),
        }
    }
}

impl Clone for DSDVMessage {
    fn clone(&self) -> (copy: DSDVMessage)
        ensures
            copy@ == self@,
    {
        match self {
            DSDVMessage::HeartBeat(beat) => DSDVMessage::HeartBeat((beat.0.clone(), beat.1)),
            DSDVMessage::RoutingRequest(hop) => DSDVMessage::RoutingRequest((hop.0, hop.1, hop.2)),
        }
    }
}

/// Whether an agent with routing table `table` takes over the route to
/// `dst` that a neighbour offers: it does when it has none, or an older one.
pub open spec fn adopts(table: Map<u32, RoutingEntry>, dst: u32, offered: RoutingEntry) -> bool {
    !table.contains_key(dst) || table[dst].sequence_number < offered.sequence_number
}

/// The route through neighbour `from` that corresponds to the route
/// `offered` in its heartbeat: one hop longer.
pub open spec fn via(from: u32, offered: RoutingEntry) -> RoutingEntry {
    RoutingEntry {
        sequence_number: offered.sequence_number,
        next_hop: from,
        metric: (offered.metric + 1) as u64,
    }
}

/// The routing table after the heartbeat `other` of neighbour `from` was
/// taken in.
pub open spec fn merged(
    table: Map<u32, RoutingEntry>,
    other: Map<u32, RoutingEntry>,
    from: u32,
) -> Map<u32, RoutingEntry> {
    Map::new(
        |dst: u32| table.contains_key(dst) || other.contains_key(dst),
        |dst: u32|
            if other.contains_key(dst) && adopts(table, dst, other[dst]) {
                via(from, other[dst])
            } else {
                table[dst]
            },
    )
}

/// Whether the heartbeat `other` can be taken in: no adopted route is so
/// long that one more hop cannot be counted.
pub open spec fn mergeable(table: Map<u32, RoutingEntry>, other: Map<u32, RoutingEntry>) -> bool {
    forall|dst: u32| #[trigger]
        other.contains_key(dst) && adopts(table, dst, other[dst]) ==> other[dst].metric < u64::MAX
}

/// The routing table in which every route is announced afresh at tick `now`.
pub open spec fn bumped(table: Map<u32, RoutingEntry>, now: u32) -> Map<u32, RoutingEntry> {
    table.map_values(|entry: RoutingEntry| RoutingEntry { sequence_number: now, ..entry })
}

/// What transmitting a queue yields.
pub ghost struct Routed {
    /// The messages sent, in order.
    pub sent: Seq<DsdvMessageView>,
    /// The entries that stay queued because no route to their destination is
    /// known, in order.
    pub kept: Seq<(RoutableMessage, u32)>,
    /// The retry slots, with the transmissions recorded.
    pub slots: Map<u32, (RequestMessage, i32)>,
}

/// Transmitting the queue `pending` at tick `now`, entry by entry: an entry
/// whose destination is in the routing table is sent to the next hop, and
/// the retry slot of a sent request records the tick; any other entry stays
/// queued.
pub open spec fn route(
    table: Map<u32, RoutingEntry>,
    slots: Map<u32, (RequestMessage, i32)>,
    pending: Seq<(RoutableMessage, u32)>,
    now: u32,
) -> Routed
    decreases pending.len(),
{
    if pending.len() == 0 {
        Routed { sent: Seq::empty(), kept: Seq::empty(), slots }
    } else {
        let before = route(table, slots, pending.drop_last(), now);
        let (payload, dst) = pending.last();
        if table.contains_key(dst) {
            Routed {
                sent: before.sent.push(
                    DsdvMessageView::RoutingRequest(payload, table[dst].next_hop, dst),
                ),
                kept: before.kept,
                slots: refreshed(before.slots, payload, now),
            }
        } else {
            Routed { kept: before.kept.push((payload, dst)), ..before }
        }
    }
}

/// Every queued entry is either sent or kept, and what is kept has no route.
pub proof fn lemma_route(
    table: Map<u32, RoutingEntry>,
    slots: Map<u32, (RequestMessage, i32)>,
    pending: Seq<(RoutableMessage, u32)>,
    now: u32,
)
    ensures
        route(table, slots, pending, now).sent.len() + route(table, slots, pending, now).kept.len()
            == pending.len(),
        forall|i: int|
            0 <= i < route(table, slots, pending, now).kept.len() ==> !table.contains_key(
                (#[trigger] route(table, slots, pending, now).kept[i]).1,
            ),
        forall|i: int|
            0 <= i < route(table, slots, pending, now).sent.len() ==> (#[trigger] route(
                table,
                slots,
                pending,
                now,
            ).sent[i] matches DsdvMessageView::RoutingRequest(_, hop, dst) && table.contains_key(dst)
                && hop == table[dst].next_hop),
        route(table, slots, pending, now).slots.dom() == slots.dom(),
    decreases pending.len(),
{
    if pending.len() > 0 {
        lemma_route(table, slots, pending.drop_last(), now);
        let before = route(table, slots, pending.drop_last(), now);
        assert(refreshed(before.slots, pending.last().0, now).dom() =~= before.slots.dom());
    }
}

/// The mathematical content of a [`DsdvState`].
pub ghost struct DsdvView {
    /// The agent that runs the protocol.
    pub my_id: u32,
    /// The tick of the last activation.
    pub clock: u32,
    /// The tick of the last heartbeat.
    pub last_transmission: u32,
    /// The routing table.
    pub table: Map<u32, RoutingEntry>,
    /// Payloads waiting for a route, each with its destination.
    pub pending: Seq<(RoutableMessage, u32)>,
    /// The requests that wait for their acknowledgement, by id, each with
    /// the tick of its last transmission.
    pub retries: Map<u32, (RequestMessage, i32)>,
}

impl DsdvView {
    /// The last heartbeat is not in the future.
    pub open spec fn wf(self) -> bool {
        self.last_transmission <= self.clock
    }

    /// The state in which agent `my_id` starts at tick `now`: it knows the
    /// route to itself and nothing else.
    pub open spec fn init(my_id: u32, now: u32) -> DsdvView {
        DsdvView {
            my_id,
            clock: now,
            last_transmission: now,
            table: Map::empty().insert(
                my_id,
                RoutingEntry { sequence_number: now, next_hop: my_id, metric: 0 },
            ),
            pending: Seq::empty(),
            retries: Map::empty(),
        }
    }

    /// The heartbeat with which an agent announces itself when it starts.
    pub open spec fn first_beat(my_id: u32, now: u32) -> MessageType<DsdvMessageView> {
        MessageType::Comm(DsdvMessageView::HeartBeat(Self::init(my_id, now).table, my_id))
    }

    /// Whether `event` can be taken in: a heartbeat has to be mergeable.
    pub open spec fn accepts(self, event: Option<MessageType<DsdvMessageView>>) -> bool {
        event matches Some(MessageType::Comm(DsdvMessageView::HeartBeat(other, _)))
            ==> mergeable(self.table, other)
    }

    /// Taking in what the agent was woken with.
    ///
    /// - A request injected at this agent gets a retry slot that is due at
    ///   once.
    /// - A payload that this agent has to pass on is queued for its
    ///   destination. When this agent is the destination, a request is
    ///   reported to the engine and its acknowledgement is queued for the
    ///   requester, and an acknowledgement frees the retry slot.
    /// - A payload that another agent has to pass on is ignored.
    /// - A heartbeat is merged into the routing table.
    pub open spec fn receive(self, event: Option<MessageType<DsdvMessageView>>) -> (
        DsdvView,
        Seq<MessageType<DsdvMessageView>>,
    ) {
        match event {
            Some(MessageType::Request(request)) => (
                DsdvView {
                    retries: self.retries.insert(
                        request.id,
                        (request, long_ago(DSDV_RETRY_PERIOD)),
                    ),
                    ..self
                },
                Seq::empty(),
            ),
            Some(MessageType::Comm(DsdvMessageView::RoutingRequest(payload, relay, dst))) => {
                if relay != self.my_id {
                    (self, Seq::empty())
                } else if dst != self.my_id {
                    (DsdvView { pending: self.pending.push((payload, dst)), ..self }, Seq::empty())
                } else {
                    match payload {
                        RoutableMessage::Request(request) => (
                            DsdvView {
                                pending: self.pending.push(
                                    (RoutableMessage::Ack(request.id), request.from),
                                ),
                                ..self
                            },
                            seq![MessageType::Request(request)],
                        ),
                        RoutableMessage::Ack(id) => (
                            DsdvView { retries: self.retries.remove(id), ..self },
                            Seq::empty(),
                        ),
                    }
                }
            },
            Some(MessageType::Comm(DsdvMessageView::HeartBeat(other, from))) => (
                DsdvView { table: merged(self.table, other, from), ..self },
                Seq::empty(),
            ),
            None => (self, Seq::empty()),
        }
    }

    /// Queueing the retransmissions that are due at tick `now`, the retry
    /// slots taken in the order `order`, and dropping repeated payloads.
    pub open spec fn queued(self, now: u32, order: Seq<u32>) -> DsdvView {
        DsdvView {
            pending: first_of_each(
                self.pending + due_requests(self.retries, order, now, DSDV_RETRY_PERIOD),
            ),
            ..self
        }
    }

    /// Transmitting the queue at tick `now`.
    pub open spec fn transmit(self, now: u32) -> (DsdvView, Seq<MessageType<DsdvMessageView>>) {
        let routed = route(self.table, self.retries, self.pending, now);
        (
            DsdvView { pending: routed.kept, retries: routed.slots, ..self },
            routed.sent.map_values(|message: DsdvMessageView| MessageType::Comm(message)),
        )
    }

    /// The heartbeat: when the period has passed since the last one, every
    /// route is announced afresh and the whole table is broadcast.
    pub open spec fn heartbeat(self, now: u32) -> (DsdvView, Seq<MessageType<DsdvMessageView>>) {
        if now - self.last_transmission >= DSDV_HEARTBEAT_PERIOD {
            let table = bumped(self.table, now);
            (
                DsdvView { table, last_transmission: now, ..self },
                seq![MessageType::Comm(DsdvMessageView::HeartBeat(table, self.my_id))],
            )
        } else {
            (self, Seq::empty())
        }
    }

    /// One activation of the agent at tick `now`: the event is taken in, the
    /// due retransmissions are queued, the queue is transmitted, and the
    /// heartbeat is sent when it is time. `order` is the order in which the
    /// retry slots are walked. The result is the new state and what the
    /// agent emits, in order.
    pub open spec fn step(
        self,
        now: u32,
        event: Option<MessageType<DsdvMessageView>>,
        order: Seq<u32>,
    ) -> (DsdvView, Seq<MessageType<DsdvMessageView>>) {
        let (received, reports) = self.receive(event);
        let (transmitted, sent) = received.queued(now, order).transmit(now);
        let (beaten, beats) = transmitted.heartbeat(now);
        (DsdvView { clock: now, ..beaten }, reports + sent + beats)
    }

    /// An activation keeps the state consistent when time does not go back.
    pub proof fn lemma_step_wf(
        self,
        now: u32,
        event: Option<MessageType<DsdvMessageView>>,
        order: Seq<u32>,
    )
        requires
            self.wf(),
            self.clock <= now,
        ensures
            self.step(now, event, order).0.wf(),
            self.step(now, event, order).0.clock == now,
            self.step(now, event, order).0.my_id == self.my_id,
    {
    }

    /// An agent that is not the relay of a payload does nothing with it.
    pub proof fn lemma_not_for_us(self, payload: RoutableMessage, relay: u32, dst: u32)
        requires
            relay != self.my_id,
        ensures
            self.receive(
                Some(MessageType::Comm(DsdvMessageView::RoutingRequest(payload, relay, dst))),
            ) == (self, Seq::<MessageType<DsdvMessageView>>::empty()),
    {
    }

    /// After a heartbeat of neighbour `from` every destination that it
    /// offers is in the table, and each adopted route leads through `from`
    /// and is one hop longer than offered.
    pub proof fn lemma_heartbeat_adopted(self, other: Map<u32, RoutingEntry>, from: u32, dst: u32)
        requires
            other.contains_key(dst),
        ensures
            ({
                let after = self.receive(
                    Some(MessageType::Comm(DsdvMessageView::HeartBeat(other, from))),
                ).0;
                &&& after.table.contains_key(dst)
                &&& adopts(self.table, dst, other[dst]) ==> after.table[dst] == via(from, other[dst])
                &&& !adopts(self.table, dst, other[dst]) ==> after.table[dst] == self.table[dst]
            }),
    {
    }
}

/// The state of one agent that runs the protocol.
#[derive(Debug)]
pub struct DsdvState {
    my_id: u32,
    clock: u32,
    last_transmission: u32,
    table: HashMap<u32, RoutingEntry>,
    messages_to_send: Vec<(RoutableMessage, u32)>,
    retries: HashMap<u32, (RequestMessage, i32)>,
}

impl View for DsdvState {
    type V = DsdvView;

    closed spec fn view(&self) -> DsdvView {
        DsdvView {
            my_id: self.my_id,
            clock: self.clock,
            last_transmission: self.last_transmission,
            table: self.table@,
            pending: self.messages_to_send@,
            retries: self.retries@,
        }
    }
}

impl DsdvState {
    /// The last heartbeat is not in the future.
    pub open spec fn wf(&self) -> bool {
        self@.wf()
    }

    /// The state in which agent `my_id` starts at tick `now`, and the
    /// heartbeat with which it announces itself.
    pub fn new(my_id: u32, now: u32) -> (made: (DsdvState, MessageType<DSDVMessage>))
        ensures
            made.0.wf(),
            made.0@ == DsdvView::init(my_id, now),
            made.1@ == DsdvView::first_beat(my_id, now),
    {
        let mut table: HashMap<u32, RoutingEntry> = HashMap::new();
        table.insert(my_id, RoutingEntry { sequence_number: now, next_hop: my_id, metric: 0 });
        let beat = MessageType::Comm(DSDVMessage::HeartBeat((table.clone(), my_id)));
        let state = DsdvState {
            my_id,
            clock: now,
            last_transmission: now,
            table,
            messages_to_send: Vec::new(),
            retries: HashMap::new(),
        };
        (state, beat)
    }

    /// The agent that runs the protocol.
    pub fn my_id(&self) -> (id: u32)
        ensures
            id == self@.my_id,
    {
        self.my_id
    }

    /// The route to `dst`, if one is known.
    pub fn route_to(&self, dst: u32) -> (entry: Option<RoutingEntry>)
        ensures
            entry == (if self@.table.contains_key(dst) {
                Some(self@.table[dst])
            } else {
                None
            }),
    {
        match self.table.get(&dst) {
            Some(entry) => Some(*entry),
            None => None,
        }
    }

    /// Number of payloads that wait for a route.
    pub fn waiting(&self) -> (count: usize)
        ensures
            count == self@.pending.len(),
    {
        self.messages_to_send.len()
    }

    /// The tick at which the request `id` was last transmitted, if it still
    /// waits for its acknowledgement.
    pub fn last_sent(&self, id: u32) -> (tick: Option<i32>)
        ensures
            tick == (if self@.retries.contains_key(id) {
                Some(self@.retries[id].1)
            } else {
                None
            }),
    {
        match self.retries.get(&id) {
            Some(slot) => Some(slot.1),
            None => None,
        }
    }

    /// Merges the heartbeat `other` of neighbour `from` into the routing
    /// table.
    fn merge(&mut self, other: &HashMap<u32, RoutingEntry>, from: u32)
        requires
            mergeable(old(self)@.table, other@),
        ensures
            final(self)@ == (DsdvView { table: merged(old(self)@.table, other@, from), ..old(self)@ }),
    {
        let keys = walk(other);
        let ghost before = self@.table;
        let mut i: usize = 0;
        while i < keys.len()
            invariant
                i <= keys.len(),
                is_walk(keys@, other@.dom()),
                mergeable(before, other@),
                before == old(self)@.table,
                self@ == (DsdvView { table: self@.table, ..old(self)@ }),
                forall|dst: u32|
                    self@.table.contains_key(dst) <==> before.contains_key(dst) || keys@.take(
                        i as int,
                    ).contains(dst),
                forall|dst: u32| #[trigger]
                    self@.table.contains_key(dst) ==> self@.table[dst] == (if keys@.take(
                        i as int,
                    ).contains(dst) {
                        merged(before, other@, from)[dst]
                    } else {
                        before[dst]
                    }),
            decreases keys.len() - i,
        {
            let dst = keys[i];
            let ghost prev = self@.table;
            proof {
                assert(keys@.to_set().contains(dst));
                assert(keys@.take(i + 1) =~= keys@.take(i as int).push(dst));
                assert(!keys@.take(i as int).contains(dst));
            }
            let offered = match other.get(&dst) {
                Some(entry) => *entry,
                None => {
                    proof {
                        assert(false);
                    }
                    return ;
                },
            };
            let adopt = match self.table.get(&dst) {
                Some(known) => known.sequence_number < offered.sequence_number,
                None => true,
            };
            if adopt {
                self.table.insert(
                    dst,
                    RoutingEntry {
                        sequence_number: offered.sequence_number,
                        next_hop: from,
                        metric: offered.metric + 1,
                    },
                );
            }
            proof {
                let shorter = keys@.take(i as int);
                let longer = keys@.take(i + 1);
                assert(longer == shorter.push(dst));
                assert forall|k: u32|
                    self@.table.contains_key(k) <==> before.contains_key(k) || longer.contains(
                        k,
                    ) by {
                    lemma_contains_push(shorter, dst, k);
                    assert(prev.contains_key(k) <==> before.contains_key(k) || shorter.contains(k));
                }
                assert forall|k: u32| #[trigger] self@.table.contains_key(k) implies self@.table[k]
                    == (if longer.contains(k) {
                    merged(before, other@, from)[k]
                } else {
                    before[k]
                }) by {
                    lemma_contains_push(shorter, dst, k);
                    assert(prev.contains_key(k) <==> before.contains_key(k) || shorter.contains(k));
                    if prev.contains_key(k) {
                        assert(prev[k] == (if shorter.contains(k) {
                            merged(before, other@, from)[k]
                        } else {
                            before[k]
                        }));
                    }
                }
            }
            i = i + 1;
        }
        proof {
            assert(keys@.take(keys.len() as int) =~= keys@);
            assert forall|dst: u32| keys@.contains(dst) <==> other@.contains_key(dst) by {
                assert(keys@.to_set().contains(dst) <==> other@.dom().contains(dst));
            }
            assert(self@.table =~= merged(before, other@, from));
        }
    }

    /// Takes in what the agent was woken with.
    fn receive(&mut self, event: Option<Message<DSDVMessage>>, out: &mut Vec<MessageType<DSDVMessage>>)
        requires
            old(self)@.accepts(event_view(event)),
            old(out)@.len() == 0,
        ensures
            final(self)@ == old(self)@.receive(event_view(event)).0,
            views(final(out)@) == old(self)@.receive(event_view(event)).1,
    {
        proof {
            assert(views(out@) =~= Seq::<MessageType<DsdvMessageView>>::empty());
        }
        match event {
            Some(envelope) => match envelope.data {
                MessageType::Request(request) => {
                    self.retries.insert(request.id, (request, -(DSDV_RETRY_PERIOD as i32)));
                },
                MessageType::Comm(DSDVMessage::RoutingRequest(hop)) => {
                    let payload = hop.0;
                    let relay = hop.1;
                    let dst = hop.2;
                    if relay == self.my_id {
                        if dst == self.my_id {
                            match payload {
                                RoutableMessage::Request(request) => {
                                    out.push(MessageType::Request(request));
                                    self.messages_to_send.push(
                                        (RoutableMessage::Ack(request.id), request.from),
                                    );
                                    proof {
                                        assert(views(out@) =~= seq![
                                            MessageType::<DsdvMessageView>::Request(request),
                                        ]);
                                    }
                                },
                                RoutableMessage::Ack(id) => {
                                    self.retries.remove(&id);
                                },
                            }
                        } else {
                            self.messages_to_send.push((payload, dst));
                        }
                    }
                },
                MessageType::Comm(DSDVMessage::HeartBeat(beat)) => {
                    self.merge(&beat.0, beat.1);
                },
            },
            None => {},
        }
    }

    /// Queues the retransmissions that are due and drops repeated payloads;
    /// tells the order in which the retry slots were walked.
    fn queue(&mut self, now: u32) -> (order: Ghost<Seq<u32>>)
        ensures
            is_walk(order@, old(self)@.retries.dom()),
            final(self)@ == old(self)@.queued(now, order@),
    {
        let order = queue_due(&self.retries, now, DSDV_RETRY_PERIOD, &mut self.messages_to_send);
        dedup(&mut self.messages_to_send);
        order
    }

    /// Transmits the queue.
    fn transmit(&mut self, now: u32, out: &mut Vec<MessageType<DSDVMessage>>)
        requires
            now <= i32::MAX,
        ensures
            final(self)@ == old(self)@.transmit(now).0,
            views(final(out)@) == views(old(out)@) + old(self)@.transmit(now).1,
    {
        let ghost table = self@.table;
        let ghost slots = self@.retries;
        let ghost pending = self@.pending;
        let mut unsent: Vec<(RoutableMessage, u32)> = Vec::new();
        let mut i: usize = 0;
        proof {
            assert(pending.take(0) =~= Seq::<(RoutableMessage, u32)>::empty());
            assert(views(out@) =~= views(old(out)@) + route(
                table,
                slots,
                pending.take(0),
                now,
            ).sent.map_values(|message: DsdvMessageView| MessageType::Comm(message)));
        }
        while i < self.messages_to_send.len()
            invariant
                i <= self.messages_to_send.len(),
                now <= i32::MAX,
                table == old(self)@.table,
                slots == old(self)@.retries,
                pending == old(self)@.pending,
                self@ == (DsdvView { retries: self@.retries, ..old(self)@ }),
                self@.retries == route(table, slots, pending.take(i as int), now).slots,
                unsent@ == route(table, slots, pending.take(i as int), now).kept,
                views(out@) == views(old(out)@) + route(
                    table,
                    slots,
                    pending.take(i as int),
                    now,
                ).sent.map_values(|message: DsdvMessageView| MessageType::Comm(message)),
            decreases self.messages_to_send.len() - i,
        {
            let entry = self.messages_to_send[i];
            let payload = entry.0;
            let dst = entry.1;
            proof {
                assert(pending.take(i + 1).drop_last() =~= pending.take(i as int));
                assert(pending.take(i + 1).last() == entry);
            }
            let hop = match self.table.get(&dst) {
                Some(known) => Some(known.next_hop),
                None => None,
            };
            match hop {
                Some(next_hop) => {
                    let ghost sent_before = out@;
                    let message = MessageType::Comm(
                        DSDVMessage::RoutingRequest((payload, next_hop, dst)),
                    );
                    out.push(message);
                    refresh(&mut self.retries, &payload, now);
                    proof {
                        lemma_views_push(sent_before, message);
                        assert(views(out@) =~= views(old(out)@) + route(
                            table,
                            slots,
                            pending.take(i + 1),
                            now,
                        ).sent.map_values(|message: DsdvMessageView| MessageType::Comm(message)));
                    }
                },
                None => {
                    unsent.push(entry);
                },
            }
            i = i + 1;
        }
        proof {
            assert(pending.take(pending.len() as int) =~= pending);
        }
        self.messages_to_send = unsent;
    }

    /// Announces every route afresh.
    fn bump(&mut self, now: u32)
        ensures
            final(self)@ == (DsdvView { table: bumped(old(self)@.table, now), ..old(self)@ }),
    {
        let keys = walk(&self.table);
        let ghost before = self@.table;
        let mut i: usize = 0;
        while i < keys.len()
            invariant
                i <= keys.len(),
                is_walk(keys@, before.dom()),
                before == old(self)@.table,
                self@ == (DsdvView { table: self@.table, ..old(self)@ }),
                self@.table.dom() == before.dom(),
                forall|j: int|
                    0 <= j < keys.len() ==> self@.table[#[trigger] keys[j]] == (if j < i {
                        RoutingEntry { sequence_number: now, ..before[keys[j]] }
                    } else {
                        before[keys[j]]
                    }),
            decreases keys.len() - i,
        {
            let dst = keys[i];
            proof {
                assert(keys@.to_set().contains(dst));
            }
            let known = match self.table.get(&dst) {
                Some(entry) => *entry,
                None => {
                    proof {
                        assert(false);
                    }
                    return ;
                },
            };
            self.table.insert(dst, RoutingEntry { sequence_number: now, ..known });
            proof {
                assert(self@.table.dom() =~= before.dom());
            }
            i = i + 1;
        }
        proof {
            assert forall|dst: u32| before.contains_key(dst) implies self@.table[dst]
                == bumped(before, now)[dst] by {
                assert(keys@.to_set().contains(dst));
                let j = choose|j: int| 0 <= j < keys@.len() && keys@[j] == dst;
                assert(self@.table[keys[j]] == RoutingEntry {
                    sequence_number: now,
                    ..before[keys[j]]
                });
            }
            assert(self@.table =~= bumped(before, now));
        }
    }

    /// Sends the heartbeat when it is time.
    fn heartbeat(&mut self, now: u32, out: &mut Vec<MessageType<DSDVMessage>>)
        requires
            old(self)@.last_transmission <= now,
        ensures
            final(self)@ == old(self)@.heartbeat(now).0,
            views(final(out)@) == views(old(out)@) + old(self)@.heartbeat(now).1,
    {
        if now - self.last_transmission >= DSDV_HEARTBEAT_PERIOD {
            self.bump(now);
            let message = MessageType::Comm(DSDVMessage::HeartBeat((self.table.clone(), self.my_id)));
            self.last_transmission = now;
            let ghost sent_before = out@;
            out.push(message);
            proof {
                lemma_views_push(sent_before, message);
                assert(views(out@) =~= views(old(out)@) + old(self)@.heartbeat(now).1);
            }
        } else {
            proof {
                assert(views(out@) =~= views(old(out)@) + old(self)@.heartbeat(now).1);
            }
        }
    }
}

/// One activation of a DSDV agent at tick `now`, woken with `event` (or
/// with nothing, after waiting in vain). Returns what the agent emits, in
/// order. The state and the emissions are those of [`DsdvView::step`], for
/// the order in which the retry slots happen to be walked.
pub fn dsdv_actor(state: &mut DsdvState, now: u32, event: Option<Message<DSDVMessage>>) -> (out:
    Vec<MessageType<DSDVMessage>>)
    requires
        old(state).wf(),
        old(state)@.clock <= now <= i32::MAX,
        old(state)@.accepts(event_view(event)),
    ensures
        final(state).wf(),
        exists|order: Seq<u32>|
            {
                &&& is_walk(order, old(state)@.receive(event_view(event)).0.retries.dom())
                &&& final(state)@ == (#[trigger] old(state)@.step(now, event_view(event), order)).0
                &&& views(out@) == old(state)@.step(now, event_view(event), order).1
            },
{
    let mut out: Vec<MessageType<DSDVMessage>> = Vec::new();
    state.receive(event, &mut out);
    let order = state.queue(now);
    state.transmit(now, &mut out);
    state.heartbeat(now, &mut out);
    state.clock = now;
    proof {
        let expected = old(state)@.step(now, event_view(event), order@);
        assert(views(out@) =~= expected.1);
        assert(state@ == expected.0);
    }
    out
}

} // verus!
