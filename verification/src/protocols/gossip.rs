//! Gossip: every agent repeats what it hears.
//!
//! A request is flooded until it reaches its addressee; the addressee
//! answers with an acknowledgement, which is flooded in turn and stops the
//! repetition of the request wherever it arrives.

use crate::model::message::{event_view, lemma_views_push, views, Message, MessageType, RequestMessage};
use crate::walk::{is_walk, walk};
use std::collections::HashMap;
use vstd::prelude::*;

verus! {

broadcast use vstd::std_specs::hash::group_hash_axioms;

/// Ticks after which a request that is still unacknowledged is repeated.
pub const GOSSIP_REBROADCAST_PERIOD: u32 = 100;

/// The traffic of the protocol.
#[derive(Debug, Clone, Copy, PartialEq, Eq, Structural)]
pub enum GossipMessage {
    /// A request on its way to its addressee.
    Request(RequestMessage),
    /// The confirmation that the request with this id has arrived.
    Ack(u32),
}

impl View for GossipMessage {
    type V = GossipMessage;

    open spec fn view(&self) -> GossipMessage {
        *self
    }
}

/// Whether a history entry is a request that has not been broadcast for
/// more than the rebroadcast period.
pub open spec fn is_stale(entry: (GossipMessage, u32), now: u32) -> bool {
    entry.0 is Request && now - entry.1 > GOSSIP_REBROADCAST_PERIOD
}

/// A history entry after the periodic pass at tick `now`: a stale request
/// was just broadcast.
pub open spec fn aged(entry: (GossipMessage, u32), now: u32) -> (GossipMessage, u32) {
    if is_stale(entry, now) {
        (entry.0, now)
    } else {
        entry
    }
}

/// What the periodic pass at tick `now` broadcasts, the history taken in
/// the order `order`: every stale request.
pub open spec fn rebroadcasts(
    history: Map<u32, (GossipMessage, u32)>,
    order: Seq<u32>,
    now: u32,
) -> Seq<MessageType<GossipMessage>>
    decreases order.len(),
{
    if order.len() == 0 {
        Seq::empty()
    } else {
        let before = rebroadcasts(history, order.drop_last(), now);
        let entry = history[order.last()];
        if is_stale(entry, now) {
            before.push(MessageType::Comm(entry.0))
        } else {
            before
        }
    }
}

/// The periodic pass broadcasts nothing but requests, at most one for each
/// history entry.
pub proof fn lemma_rebroadcasts(history: Map<u32, (GossipMessage, u32)>, order: Seq<u32>, now: u32)
    ensures
        rebroadcasts(history, order, now).len() <= order.len(),
        forall|i: int|
            0 <= i < rebroadcasts(history, order, now).len() ==> (#[trigger] rebroadcasts(
                history,
                order,
                now,
            )[i] matches MessageType::Comm(GossipMessage::Request(_))),
    decreases order.len(),
{
    if order.len() > 0 {
        lemma_rebroadcasts(history, order.drop_last(), now);
    }
}

/// A history without a stale request makes the periodic pass silent.
pub proof fn lemma_nothing_stale(history: Map<u32, (GossipMessage, u32)>, order: Seq<u32>, now: u32)
    requires
        forall|i: int| 0 <= i < order.len() ==> !is_stale(#[trigger] history[order[i]], now),
    ensures
        rebroadcasts(history, order, now) == Seq::<MessageType<GossipMessage>>::empty(),
    decreases order.len(),
{
    if order.len() > 0 {
        assert forall|i: int| 0 <= i < order.drop_last().len() implies !is_stale(
            #[trigger] history[order.drop_last()[i]],
            now,
        ) by {
            assert(order.drop_last()[i] == order[i]);
        }
        lemma_nothing_stale(history, order.drop_last(), now);
        assert(!is_stale(history[order[order.len() - 1]], now));
    }
}

/// The mathematical content of a [`GossipState`].
pub ghost struct GossipView {
    /// The agent that runs the protocol.
    pub my_id: u32,
    /// The tick of the last activation.
    pub clock: u32,
    /// What is known of each request, by id: the request itself while it is
    /// unacknowledged or its acknowledgement, and the tick at which it was
    /// last broadcast.
    pub history: Map<u32, (GossipMessage, u32)>,
}

impl GossipView {
    /// No broadcast is recorded in the future.
    pub open spec fn wf(self) -> bool {
        forall|id: u32| #[trigger] self.history.contains_key(id) ==> self.history[id].1 <= self.clock
    }

    /// The state in which agent `my_id` starts at tick `now`.
    pub open spec fn init(my_id: u32, now: u32) -> GossipView {
        GossipView { my_id, clock: now, history: Map::empty() }
    }

    /// Whether the history holds the acknowledgement of request `id`.
    pub open spec fn acknowledged(self, id: u32) -> bool {
        self.history.contains_key(id) && self.history[id].0 is Ack
    }

    /// Taking in what the agent was woken with at tick `now`.
    ///
    /// - A request injected at this agent is recorded, to be broadcast by
    ///   the periodic pass.
    /// - A request that arrives at its addressee is reported to the engine
    ///   and recorded as acknowledged.
    /// - A request whose acknowledgement is in the history is answered with
    ///   that acknowledgement, unless one was broadcast at this tick already.
    /// - An acknowledgement that is new to this agent is recorded and passed
    ///   on.
    pub open spec fn receive(self, event: Option<MessageType<GossipMessage>>, now: u32) -> (
        GossipView,
        Seq<MessageType<GossipMessage>>,
    ) {
        match event {
            Some(MessageType::Request(request)) => (
                GossipView {
                    history: self.history.insert(request.id, (GossipMessage::Request(request), 0)),
                    ..self
                },
                Seq::empty(),
            ),
            Some(MessageType::Comm(GossipMessage::Request(request))) => {
                let (arrived, reports) = if request.to == self.my_id {
                    (
                        GossipView {
                            history: self.history.insert(
                                request.id,
                                (GossipMessage::Ack(request.id), 0),
                            ),
                            ..self
                        },
                        seq![MessageType::Request(request)],
                    )
                } else {
                    (self, Seq::empty())
                };
                if arrived.acknowledged(request.id) && arrived.history[request.id].1 != now {
                    (
                        GossipView {
                            history: arrived.history.insert(
                                request.id,
                                (arrived.history[request.id].0, now),
                            ),
                            ..arrived
                        },
                        reports.push(MessageType::Comm(GossipMessage::Ack(request.id))),
                    )
                } else {
                    (arrived, reports)
                }
            },
            Some(MessageType::Comm(GossipMessage::Ack(id))) => {
                if self.acknowledged(id) {
                    (self, Seq::empty())
                } else {
                    (
                        GossipView {
                            history: self.history.insert(id, (GossipMessage::Ack(id), now)),
                            ..self
                        },
                        seq![MessageType::Comm(GossipMessage::Ack(id))],
                    )
                }
            },
            None => (self, Seq::empty()),
        }
    }

    /// The periodic pass at tick `now`, the history taken in the order
    /// `order`: every stale request is broadcast and records the tick.
    pub open spec fn refresh(self, now: u32, order: Seq<u32>) -> (
        GossipView,
        Seq<MessageType<GossipMessage>>,
    ) {
        (
            GossipView {
                history: self.history.map_values(|entry: (GossipMessage, u32)| aged(entry, now)),
                ..self
            },
            rebroadcasts(self.history, order, now),
        )
    }

    /// One activation of the agent at tick `now`: the event is taken in,
    /// then the periodic pass runs. `order` is the order in which the
    /// history is walked. The result is the new state and what the agent
    /// emits, in order.
    pub open spec fn step(
        self,
        now: u32,
        event: Option<MessageType<GossipMessage>>,
        order: Seq<u32>,
    ) -> (GossipView, Seq<MessageType<GossipMessage>>) {
        let (received, answers) = self.receive(event, now);
        let (refreshed, repeats) = received.refresh(now, order);
        (GossipView { clock: now, ..refreshed }, answers + repeats)
    }

    /// An activation keeps the state consistent when time does not go back.
    pub proof fn lemma_step_wf(
        self,
        now: u32,
        event: Option<MessageType<GossipMessage>>,
        order: Seq<u32>,
    )
        requires
            self.wf(),
            self.clock <= now,
        ensures
            self.step(now, event, order).0.wf(),
            self.step(now, event, order).0.clock == now,
            self.step(now, event, order).0.my_id == self.my_id,
    {
    }

    /// An acknowledgement stops the repetition of its request: once it is
    /// taken in, the periodic pass never broadcasts that request again.
    pub proof fn lemma_ack_silences(self, id: u32, now: u32, later: u32)
        ensures
            ({
                let after = self.receive(Some(MessageType::Comm(GossipMessage::Ack(id))), now).0;
                after.acknowledged(id) && !is_stale(after.history[id], later)
            }),
    {
    }

    /// The addressee reports every copy of a request that reaches it.
    pub proof fn lemma_addressee_reports(self, request: RequestMessage, now: u32)
        requires
            request.to == self.my_id,
        ensures
            ({
                let (after, emitted) = self.receive(
                    Some(MessageType::Comm(GossipMessage::Request(request))),
                    now,
                );
                &&& emitted.len() >= 1
                &&& emitted[0] == MessageType::<GossipMessage>::Request(request)
                &&& after.acknowledged(request.id)
            }),
    {
    }
}

/// The state of one agent that runs the protocol.
#[derive(Debug)]
pub struct GossipState {
    my_id: u32,
    clock: u32,
    history: HashMap<u32, (GossipMessage, u32)>,
}

impl View for GossipState {
    type V = GossipView;

    closed spec fn view(&self) -> GossipView {
        GossipView { my_id: self.my_id, clock: self.clock, history: self.history@ }
    }
}

impl GossipState {
    /// No broadcast is recorded in the future.
    pub open spec fn wf(&self) -> bool {
        self@.wf()
    }

    /// The state in which agent `my_id` starts at tick `now`.
    pub fn new(my_id: u32, now: u32) -> (state: GossipState)
        ensures
            state.wf(),
            state@ == GossipView::init(my_id, now),
    {
        GossipState { my_id, clock: now, history: HashMap::new() }
    }

    /// The agent that runs the protocol.
    pub fn my_id(&self) -> (id: u32)
        ensures
            id == self@.my_id,
    {
        self.my_id
    }

    /// What is known of request `id`, and the tick of its last broadcast.
    pub fn known(&self, id: u32) -> (entry: Option<(GossipMessage, u32)>)
        ensures
            entry == (if self@.history.contains_key(id) {
                Some(self@.history[id])
            } else {
                None
            }),
    {
        match self.history.get(&id) {
            Some(entry) => Some(*entry),
            None => None,
        }
    }

    /// The acknowledgement of request `id` in the history, with the tick of
    /// its last broadcast, if the history holds it.
    fn acknowledgement(&self, id: u32) -> (found: Option<(GossipMessage, u32)>)
        ensures
            found is Some <==> self@.acknowledged(id),
            found matches Some(entry) ==> entry == self@.history[id],
    {
        match self.history.get(&id) {
            Some(entry) => match entry.0 {
                GossipMessage::Ack(_) => Some(*entry),
                GossipMessage::Request(_) => None,
            },
            None => None,
        }
    }

    /// Takes in what the agent was woken with.
    fn receive(
        &mut self,
        event: Option<Message<GossipMessage>>,
        now: u32,
        out: &mut Vec<MessageType<GossipMessage>>,
    )
        requires
            old(out)@.len() == 0,
        ensures
            final(self)@ == old(self)@.receive(event_view(event), now).0,
            views(final(out)@) == old(self)@.receive(event_view(event), now).1,
    {
        proof {
            assert(views(out@) =~= Seq::<MessageType<GossipMessage>>::empty());
        }
        match event {
            Some(envelope) => match envelope.data {
                MessageType::Request(request) => {
                    self.history.insert(request.id, (GossipMessage::Request(request), 0));
                },
                MessageType::Comm(GossipMessage::Request(request)) => {
                    if request.to == self.my_id {
                        out.push(MessageType::Request(request));
                        self.history.insert(request.id, (GossipMessage::Ack(request.id), 0));
                    }
                    match self.acknowledgement(request.id) {
                        Some(entry) => {
                            if entry.1 != now {
                                self.history.insert(request.id, (entry.0, now));
                                out.push(MessageType::Comm(GossipMessage::Ack(request.id)));
                            }
                        },
                        None => {},
                    }
                    proof {
                        assert(views(out@) =~= old(self)@.receive(event_view(event), now).1);
                    }
                },
                MessageType::Comm(GossipMessage::Ack(id)) => {
                    if self.acknowledgement(id).is_none() {
                        self.history.insert(id, (GossipMessage::Ack(id), now));
                        out.push(MessageType::Comm(GossipMessage::Ack(id)));
                    }
                    proof {
                        assert(views(out@) =~= old(self)@.receive(event_view(event), now).1);
                    }
                },
            },
            None => {},
        }
    }

    /// The periodic pass; tells the order in which the history was walked.
    fn refresh(&mut self, now: u32, out: &mut Vec<MessageType<GossipMessage>>) -> (order: Ghost<
        Seq<u32>,
    >)
        requires
            forall|id: u32| #[trigger]
                old(self)@.history.contains_key(id) ==> old(self)@.history[id].1 <= now,
        ensures
            is_walk(order@, old(self)@.history.dom()),
            final(self)@ == old(self)@.refresh(now, order@).0,
            views(final(out)@) == views(old(out)@) + old(self)@.refresh(now, order@).1,
    {
        let keys = walk(&self.history);
        let ghost before = self@.history;
        let mut i: usize = 0;
        proof {
            assert(keys@.take(0) =~= Seq::<u32>::empty());
            assert(views(out@) =~= views(old(out)@) + rebroadcasts(before, keys@.take(0), now));
        }
        while i < keys.len()
            invariant
                i <= keys.len(),
                is_walk(keys@, before.dom()),
                before == old(self)@.history,
                forall|id: u32| #[trigger] before.contains_key(id) ==> before[id].1 <= now,
                self@ == (GossipView { history: self@.history, ..old(self)@ }),
                self@.history.dom() == before.dom(),
                forall|j: int|
                    0 <= j < keys.len() ==> self@.history[#[trigger] keys[j]] == (if j < i {
                        aged(before[keys[j]], now)
                    } else {
                        before[keys[j]]
                    }),
                views(out@) == views(old(out)@) + rebroadcasts(before, keys@.take(i as int), now),
            decreases keys.len() - i,
        {
            let id = keys[i];
            proof {
                assert(keys@.to_set().contains(id));
                assert(keys@.take(i + 1).drop_last() =~= keys@.take(i as int));
                assert(keys@.take(i + 1).last() == id);
            }
            let entry = match self.history.get(&id) {
                Some(entry) => *entry,
                None => {
                    proof {
                        assert(false);
                    }
                    return Ghost(keys@);
                },
            };
            match entry.0 {
                GossipMessage::Request(_) => {
                    if now - entry.1 > GOSSIP_REBROADCAST_PERIOD {
                        let ghost sent_before = out@;
                        let message = MessageType::Comm(entry.0);
                        out.push(message);
                        self.history.insert(id, (entry.0, now));
                        proof {
                            lemma_views_push(sent_before, message);
                            assert(self@.history.dom() =~= before.dom());
                        }
                    }
                },
                GossipMessage::Ack(_) => {},
            }
            proof {
                assert(views(out@) =~= views(old(out)@) + rebroadcasts(
                    before,
                    keys@.take(i + 1),
                    now,
                ));
            }
            i = i + 1;
        }
        proof {
            assert(keys@.take(keys.len() as int) =~= keys@);
            let after = before.map_values(|entry: (GossipMessage, u32)| aged(entry, now));
            assert forall|id: u32| before.contains_key(id) implies self@.history[id] == after[id] by {
                assert(keys@.to_set().contains(id));
                let j = choose|j: int| 0 <= j < keys@.len() && keys@[j] == id;
                assert(self@.history[keys[j]] == aged(before[keys[j]], now));
            }
            assert(self@.history =~= after);
        }
        Ghost(keys@)
    }
}

/// One activation of a gossip agent at tick `now`, woken with `event` (or
/// with nothing, after waiting in vain). Returns what the agent emits, in
/// order. The state and the emissions are those of [`GossipView::step`],
/// for the order in which the history happens to be walked.
pub fn gossip_actor(state: &mut GossipState, now: u32, event: Option<Message<GossipMessage>>) -> (out:
    Vec<MessageType<GossipMessage>>)
    requires
        old(state).wf(),
        old(state)@.clock <= now,
    ensures
        final(state).wf(),
        exists|order: Seq<u32>|
            {
                &&& is_walk(order, old(state)@.receive(event_view(event), now).0.history.dom())
                &&& final(state)@ == (#[trigger] old(state)@.step(now, event_view(event), order)).0
                &&& views(out@) == old(state)@.step(now, event_view(event), order).1
            },
{
    let mut out: Vec<MessageType<GossipMessage>> = Vec::new();
    state.receive(event, now, &mut out);
    let order = state.refresh(now, &mut out);
    state.clock = now;
    proof {
        let expected = old(state)@.step(now, event_view(event), order@);
        assert(views(out@) =~= expected.1);
        assert(state@ == expected.0);
    }
    out
}

} // verus!
