//! Plain flooding: the agent repeats every request it hears at once, and
//! sweeps over all unacknowledged requests from time to time.

pub use crate::protocols::gossip::GossipMessage;

use crate::model::message::{event_view, lemma_views_push, views, Message, MessageType};
use crate::walk::{is_walk, walk};
use std::collections::HashMap;
use vstd::prelude::*;

verus! {

broadcast use vstd::std_specs::hash::group_hash_axioms;

/// Ticks between two sweeps over the history.
pub const SWEEP_PERIOD: u32 = 100;

/// The history with `entry` recorded for request `id`, unless something is
/// recorded for it already.
pub open spec fn noted(history: Map<u32, GossipMessage>, id: u32, entry: GossipMessage) -> Map<
    u32,
    GossipMessage,
> {
    if history.contains_key(id) {
        history
    } else {
        history.insert(id, entry)
    }
}

/// What a sweep broadcasts, the history taken in the order `order`: every
/// request that is recorded as unacknowledged.
pub open spec fn swept(history: Map<u32, GossipMessage>, order: Seq<u32>) -> Seq<
    MessageType<GossipMessage>,
>
    decreases order.len(),
{
    if order.len() == 0 {
        Seq::empty()
    } else {
        let before = swept(history, order.drop_last());
        if history[order.last()] is Request {
            before.push(MessageType::Comm(history[order.last()]))
        } else {
            before
        }
    }
}

/// The mathematical content of a [`BasicState`].
pub ghost struct BasicView {
    /// The agent that runs the protocol.
    pub my_id: u32,
    /// The tick of the last activation.
    pub clock: u32,
    /// The tick of the last sweep.
    pub last_broadcast: u32,
    /// What is known of each request, by id: the request itself, or its
    /// acknowledgement.
    pub history: Map<u32, GossipMessage>,
}

impl BasicView {
    /// The last sweep is not in the future.
    pub open spec fn wf(self) -> bool {
        self.last_broadcast <= self.clock
    }

    /// The state in which agent `my_id` starts: at tick 0, with no history.
    pub open spec fn init(my_id: u32) -> BasicView {
        BasicView { my_id, clock: 0, last_broadcast: 0, history: Map::empty() }
    }

    /// Whether the history holds the acknowledgement of request `id`.
    pub open spec fn acknowledged(self, id: u32) -> bool {
        self.history.contains_key(id) && self.history[id] is Ack
    }

    /// Taking in what the agent was woken with.
    ///
    /// - A request injected at this agent is recorded and broadcast.
    /// - A request that arrives at its addressee is reported to the engine
    ///   and recorded as acknowledged. Every request that arrives is
    ///   answered: with its acknowledgement when the history holds it, else
    ///   by repeating the request.
    /// - An acknowledgement is passed on unless the history holds it.
    pub open spec fn receive(self, event: Option<MessageType<GossipMessage>>) -> (
        BasicView,
        Seq<MessageType<GossipMessage>>,
    ) {
        match event {
            Some(MessageType::Request(request)) => (
                BasicView {
                    history: noted(self.history, request.id, GossipMessage::Request(request)),
                    ..self
                },
                seq![MessageType::Comm(GossipMessage::Request(request))],
            ),
            Some(MessageType::Comm(GossipMessage::Request(request))) => {
                let (arrived, reports) = if request.to == self.my_id {
                    (
                        BasicView {
                            history: noted(
                                self.history,
                                request.id,
                                GossipMessage::Ack(request.id),
                            ),
                            ..self
                        },
                        seq![MessageType::Request(request)],
                    )
                } else {
                    (self, Seq::empty())
                };
                let answer = if arrived.acknowledged(request.id) {
                    GossipMessage::Ack(request.id)
                } else {
                    GossipMessage::Request(request)
                };
                (arrived, reports.push(MessageType::Comm(answer)))
            },
            Some(MessageType::Comm(GossipMessage::Ack(id))) => {
                if self.acknowledged(id) {
                    (self, Seq::empty())
                } else {
                    (self, seq![MessageType::Comm(GossipMessage::Ack(id))])
                }
            },
            None => (self, Seq::empty()),
        }
    }

    /// The sweep at tick `now`, the history taken in the order `order`: when
    /// more than the period has passed since the last one, every request
    /// that is recorded as unacknowledged is broadcast.
    pub open spec fn sweep(self, now: u32, order: Seq<u32>) -> (
        BasicView,
        Seq<MessageType<GossipMessage>>,
    ) {
        if now - self.last_broadcast > SWEEP_PERIOD {
            (BasicView { last_broadcast: now, ..self }, swept(self.history, order))
        } else {
            (self, Seq::empty())
        }
    }

    /// One activation of the agent at tick `now`: the event is taken in,
    /// then the sweep runs when it is time. `order` is the order in which
    /// the history is walked. The result is the new state and what the agent
    /// emits, in order.
    pub open spec fn step(
        self,
        now: u32,
        event: Option<MessageType<GossipMessage>>,
        order: Seq<u32>,
    ) -> (BasicView, Seq<MessageType<GossipMessage>>) {
        let (received, answers) = self.receive(event);
        let (swept, repeats) = received.sweep(now, order);
        (BasicView { clock: now, ..swept }, answers + repeats)
    }

    /// An activation keeps the state consistent when time does not go back.
    pub proof fn lemma_step_wf(
        self,
        now: u32,
        event: Option<MessageType<GossipMessage>>,
        order: Seq<u32>,
    )
        requires
            self.wf(),
            self.clock <= now,
        ensures
            self.step(now, event, order).0.wf(),
            self.step(now, event, order).0.clock == now,
            self.step(now, event, order).0.my_id == self.my_id,
    {
    }
}

/// The state of one agent that runs the protocol.
#[derive(Debug)]
pub struct BasicState {
    my_id: u32,
    clock: u32,
    last_broadcast: u32,
    history: HashMap<u32, GossipMessage>,
}

impl View for BasicState {
    type V = BasicView;

    closed spec fn view(&self) -> BasicView {
        BasicView {
            my_id: self.my_id,
            clock: self.clock,
            last_broadcast: self.last_broadcast,
            history: self.history@,
        }
    }
}

impl BasicState {
    /// The last sweep is not in the future.
    pub open spec fn wf(&self) -> bool {
        self@.wf()
    }

    /// The state in which agent `my_id` starts.
    pub fn new(my_id: u32) -> (state: BasicState)
        ensures
            state.wf(),
            state@ == BasicView::init(my_id),
    {
        BasicState { my_id, clock: 0, last_broadcast: 0, history: HashMap::new() }
    }

    /// What is known of request `id`.
    pub fn known(&self, id: u32) -> (entry: Option<GossipMessage>)
        ensures
            entry == (if self@.history.contains_key(id) {
                Some(self@.history[id])
            } else {
                None
            }),
    {
        match self.history.get(&id) {
            Some(entry) => Some(*entry),
            None => None,
        }
    }

    /// Whether the history holds the acknowledgement of request `id`.
    fn acknowledged(&self, id: u32) -> (held: bool)
        ensures
            held == self@.acknowledged(id),
    {
        match self.history.get(&id) {
            Some(GossipMessage::Ack(_)) => true,
            _ => false,
        }
    }

    /// Records `entry` for request `id` unless something is recorded already.
    fn note(&mut self, id: u32, entry: GossipMessage)
        ensures
            final(self)@ == (BasicView { history: noted(old(self)@.history, id, entry), ..old(self)@ }),
    {
        if !self.history.contains_key(&id) {
            self.history.insert(id, entry);
        }
    }

    /// Takes in what the agent was woken with.
    fn receive(&mut self, event: Option<Message<GossipMessage>>, out: &mut Vec<MessageType<GossipMessage>>)
        requires
            old(out)@.len() == 0,
        ensures
            final(self)@ == old(self)@.receive(event_view(event)).0,
            views(final(out)@) == old(self)@.receive(event_view(event)).1,
    {
        match event {
            Some(envelope) => match envelope.data {
                MessageType::Request(request) => {
                    self.note(request.id, GossipMessage::Request(request));
                    out.push(MessageType::Comm(GossipMessage::Request(request)));
                },
                MessageType::Comm(GossipMessage::Request(request)) => {
                    if request.to == self.my_id {
                        out.push(MessageType::Request(request));
                        self.note(request.id, GossipMessage::Ack(request.id));
                    }
                    if self.acknowledged(request.id) {
                        out.push(MessageType::Comm(GossipMessage::Ack(request.id)));
                    } else {
                        out.push(MessageType::Comm(GossipMessage::Request(request)));
                    }
                },
                MessageType::Comm(GossipMessage::Ack(id)) => {
                    if !self.acknowledged(id) {
                        out.push(MessageType::Comm(GossipMessage::Ack(id)));
                    }
                },
            },
            None => {},
        }
        proof {
            assert(views(out@) =~= old(self)@.receive(event_view(event)).1);
        }
    }

    /// Runs the sweep when it is time; tells the order in which the history
    /// was walked.
    fn sweep(&mut self, now: u32, out: &mut Vec<MessageType<GossipMessage>>) -> (order: Ghost<Seq<u32>>)
        requires
            old(self)@.last_broadcast <= now,
        ensures
            is_walk(order@, old(self)@.history.dom()),
            final(self)@ == old(self)@.sweep(now, order@).0,
            views(final(out)@) == views(old(out)@) + old(self)@.sweep(now, order@).1,
    {
        let keys = walk(&self.history);
        if now - self.last_broadcast > SWEEP_PERIOD {
            let mut i: usize = 0;
            proof {
                assert(keys@.take(0) =~= Seq::<u32>::empty());
                assert(views(out@) =~= views(old(out)@) + swept(self@.history, keys@.take(0)));
            }
            while i < keys.len()
                invariant
                    i <= keys.len(),
                    self@ == old(self)@,
                    is_walk(keys@, self@.history.dom()),
                    views(out@) == views(old(out)@) + swept(self@.history, keys@.take(i as int)),
                decreases keys.len() - i,
            {
                let id = keys[i];
                proof {
                    assert(keys@.take(i + 1).drop_last() =~= keys@.take(i as int));
                    assert(keys@.take(i + 1).last() == id);
                    assert(keys@.to_set().contains(id));
                }
                match self.history.get(&id) {
                    Some(GossipMessage::Request(request)) => {
                        let ghost sent_before = out@;
                        let message = MessageType::Comm(GossipMessage::Request(*request));
                        out.push(message);
                        proof {
                            lemma_views_push(sent_before, message);
                        }
                    },
                    _ => {},
                }
                proof {
                    assert(views(out@) =~= views(old(out)@) + swept(
                        self@.history,
                        keys@.take(i + 1),
                    ));
                }
                i = i + 1;
            }
            proof {
                assert(keys@.take(keys.len() as int) =~= keys@);
            }
            self.last_broadcast = now;
        } else {
            proof {
                assert(views(out@) =~= views(old(out)@) + old(self)@.sweep(now, keys@).1);
            }
        }
        Ghost(keys@)
    }
}

/// One activation of a flooding agent at tick `now`, woken with `event`
/// (or with nothing, after waiting in vain). Returns what the agent emits,
/// in order. The state and the emissions are those of [`BasicView::step`],
/// for the order in which the history happens to be walked.
pub fn gossip_actor(state: &mut BasicState, now: u32, event: Option<Message<GossipMessage>>) -> (out:
    Vec<MessageType<GossipMessage>>)
    requires
        old(state).wf(),
        old(state)@.clock <= now,
    ensures
        final(state).wf(),
        exists|order: Seq<u32>|
            {
                &&& is_walk(order, old(state)@.receive(event_view(event)).0.history.dom())
                &&& final(state)@ == (#[trigger] old(state)@.step(now, event_view(event), order)).0
                &&& views(out@) == old(state)@.step(now, event_view(event), order).1
            },
{
    let mut out: Vec<MessageType<GossipMessage>> = Vec::new();
    state.receive(event, &mut out);
    let order = state.sweep(now, &mut out);
    state.clock = now;
    proof {
        let expected = old(state)@.step(now, event_view(event), order@);
        assert(views(out@) =~= expected.1);
        assert(state@ == expected.0);
    }
    out
}

} // verus!
