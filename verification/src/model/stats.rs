//! Delivery statistics kept by the engine.

use crate::walk::{is_walk, lemma_walk_bounded, walk};
use std::collections::HashMap;
use vstd::prelude::*;
use vstd::set_lib::*;

verus! {

broadcast use vstd::std_specs::hash::group_hash_axioms;

/// Delivery state of one request.
#[derive(Copy, Clone, Debug, PartialEq, Eq, Structural)]
pub struct MessageStat {
    /// Whether the request has reached its destination.
    pub delivered: bool,
    /// Ticks between injection and the first delivery.
    pub steps: u32,
}

impl Default for MessageStat {
    fn default() -> (stat: MessageStat)
        ensures
            stat == MessageStat::fresh(),
    {
        MessageStat { delivered: false, steps: 0 }
    }
}

impl MessageStat {
    /// The state of a request that was registered and not yet delivered.
    pub open spec fn fresh() -> MessageStat {
        MessageStat { delivered: false, steps: 0 }
    }
}

/// The mathematical content of a [`Stats`] value.
pub ghost struct StatsView {
    /// Envelopes handed to recipients so far.
    pub total: nat,
    /// The counter of first deliveries.
    pub delivered: nat,
    /// Delivery state of every registered request.
    pub messages: Map<u32, MessageStat>,
}

impl StatsView {
    /// The registered ids that are marked as delivered.
    pub open spec fn delivered_ids(self) -> Set<u32> {
        Set::new(|id: u32| self.messages.contains_key(id) && self.messages[id].delivered)
    }

    /// Whether `id` is registered and marked as delivered.
    pub open spec fn is_delivered(self, id: u32) -> bool {
        self.messages.contains_key(id) && self.messages[id].delivered
    }

    /// The counter of first deliveries agrees with the per-request states.
    pub open spec fn wf(self) -> bool {
        &&& self.messages.dom().finite()
        &&& self.delivered == self.delivered_ids().len()
    }

    /// No statistics at all.
    pub open spec fn empty() -> StatsView {
        StatsView { total: 0, delivered: 0, messages: Map::empty() }
    }

    /// Registering `id`: a request that is already known keeps its state.
    pub open spec fn requested(self, id: u32) -> StatsView {
        if self.messages.contains_key(id) {
            self
        } else {
            StatsView { messages: self.messages.insert(id, MessageStat::fresh()), ..self }
        }
    }

    /// Reporting a delivery of `id` after `steps` ticks: only the first report counts.
    pub open spec fn delivered(self, id: u32, steps: u32) -> StatsView {
        if self.is_delivered(id) {
            self
        } else {
            StatsView {
                delivered: self.delivered + 1,
                messages: self.messages.insert(id, MessageStat { delivered: true, steps }),
                ..self
            }
        }
    }

    /// Handing one envelope to a recipient.
    pub open spec fn on_message(self) -> StatsView {
        StatsView { total: self.total + 1, ..self }
    }

    /// Every registered request is marked as delivered.
    pub open spec fn all_delivered(self) -> bool {
        forall|id: u32| self.messages.contains_key(id) ==> #[trigger] self.messages[id].delivered
    }

    /// The delivered ids are among the registered ones, so they are finitely many.
    pub proof fn lemma_delivered_ids_finite(self)
        requires
            self.messages.dom().finite(),
        ensures
            self.delivered_ids().finite(),
            self.delivered_ids().subset_of(self.messages.dom()),
            self.delivered_ids().len() <= self.messages.dom().len(),
    {
        lemma_set_subset_finite(self.messages.dom(), self.delivered_ids());
        lemma_len_subset(self.delivered_ids(), self.messages.dom());
    }

    /// The delivery counter never exceeds the number of registered requests.
    pub proof fn lemma_delivered_bounded(self)
        requires
            self.wf(),
        ensures
            self.delivered <= self.messages.dom().len(),
    {
        self.lemma_delivered_ids_finite();
    }

    /// The counter equals the number of registered requests exactly when every
    /// registered request is marked as delivered.
    pub proof fn lemma_all_delivered_iff(self)
        requires
            self.wf(),
        ensures
            self.delivered == self.messages.dom().len() <==> self.all_delivered(),
    {
        self.lemma_delivered_ids_finite();
        if self.delivered == self.messages.dom().len() {
            lemma_subset_equality(self.delivered_ids(), self.messages.dom());
            assert forall|id: u32| self.messages.contains_key(id) implies #[trigger] self.messages[id].delivered by {
                assert(self.delivered_ids().contains(id));
            }
        }
        if self.all_delivered() {
            assert(self.delivered_ids() =~= self.messages.dom());
        }
    }

    /// Registering a request keeps the statistics consistent.
    pub proof fn lemma_requested_wf(self, id: u32)
        requires
            self.wf(),
        ensures
            self.requested(id).wf(),
            self.requested(id).delivered_ids() == self.delivered_ids(),
    {
        assert(self.requested(id).delivered_ids() =~= self.delivered_ids());
    }

    /// Reporting a delivery keeps the statistics consistent.
    pub proof fn lemma_delivered_wf(self, id: u32, steps: u32)
        requires
            self.wf(),
        ensures
            self.delivered(id, steps).wf(),
            self.delivered(id, steps).is_delivered(id),
    {
        self.lemma_delivered_ids_finite();
        if !self.is_delivered(id) {
            assert(self.delivered(id, steps).delivered_ids() =~= self.delivered_ids().insert(id));
        }
    }

    /// The delivery time of request `id`, counted as 0 while it is not
    /// delivered.
    pub open spec fn steps_of(self, id: u32) -> nat {
        if self.is_delivered(id) {
            self.messages[id].steps as nat
        } else {
            0
        }
    }

    /// The sum of the delivery times of the delivered requests with an id
    /// below `bound`.
    pub open spec fn steps_below(self, bound: nat) -> nat
        decreases bound,
    {
        if bound == 0 {
            0
        } else {
            self.steps_below((bound - 1) as nat) + self.steps_of((bound - 1) as u32)
        }
    }

    /// The sum of the delivery times of all delivered requests.
    pub open spec fn total_steps(self) -> nat {
        self.steps_below(0x1_0000_0000)
    }

    /// The sum of the delivery times of the requests that `order` names.
    pub open spec fn steps_along(self, order: Seq<u32>) -> nat
        decreases order.len(),
    {
        if order.len() == 0 {
            0
        } else {
            self.steps_along(order.drop_last()) + self.steps_of(order.last())
        }
    }

    /// Statistics that agree on the requests that `order` names have the
    /// same sum along it.
    pub proof fn lemma_steps_along_agree(self, other: StatsView, order: Seq<u32>)
        requires
            forall|j: int| 0 <= j < order.len() ==> self.steps_of(#[trigger] order[j]) == other.steps_of(order[j]),
        ensures
            self.steps_along(order) == other.steps_along(order),
        decreases order.len(),
    {
        if order.len() > 0 {
            assert forall|j: int| 0 <= j < order.drop_last().len() implies self.steps_of(
                #[trigger] order.drop_last()[j],
            ) == other.steps_of(order.drop_last()[j]) by {
                assert(order.drop_last()[j] == order[j]);
            }
            self.lemma_steps_along_agree(other, order.drop_last());
            assert(self.steps_of(order[order.len() - 1]) == other.steps_of(order[order.len() - 1]));
        }
    }

    /// Forgetting request `id` takes its delivery time out of the sum.
    pub proof fn lemma_steps_below_remove(self, id: u32, bound: nat)
        requires
            bound <= 0x1_0000_0000,
        ensures
            self.steps_below(bound) == (StatsView {
                messages: self.messages.remove(id),
                ..self
            }).steps_below(bound) + (if id < bound {
                self.steps_of(id)
            } else {
                0
            }),
        decreases bound,
    {
        if bound > 0 {
            self.lemma_steps_below_remove(id, (bound - 1) as nat);
            let fewer = StatsView { messages: self.messages.remove(id), ..self };
            let key = (bound - 1) as u32;
            if key == id {
                assert(fewer.steps_of(key) == 0);
            } else {
                assert(fewer.steps_of(key) == self.steps_of(key));
            }
        }
    }

    /// Without registered requests there is nothing to sum.
    pub proof fn lemma_steps_below_empty(self, bound: nat)
        requires
            self.messages.dom() =~= Set::<u32>::empty(),
        ensures
            self.steps_below(bound) == 0,
        decreases bound,
    {
        if bound > 0 {
            self.lemma_steps_below_empty((bound - 1) as nat);
        }
    }

    /// The sum along a walk of the registered requests is the sum of the
    /// delivery times of all delivered requests, whatever the order.
    pub proof fn lemma_steps_along_walk(self, order: Seq<u32>)
        requires
            is_walk(order, self.messages.dom()),
        ensures
            self.steps_along(order) == self.total_steps(),
        decreases order.len(),
    {
        if order.len() == 0 {
            assert(self.messages.dom() =~= Set::<u32>::empty());
            self.lemma_steps_below_empty(0x1_0000_0000);
        } else {
            let id = order.last();
            let rest = order.drop_last();
            let fewer = StatsView { messages: self.messages.remove(id), ..self };
            assert(order.to_set().contains(order[order.len() - 1]));
            assert forall|key: u32| rest.to_set().contains(key) <==> fewer.messages.dom().contains(
                key,
            ) by {
                if rest.to_set().contains(key) {
                    let j = choose|j: int| 0 <= j < rest.len() && rest[j] == key;
                    assert(order[j] == key);
                    assert(order.to_set().contains(key));
                }
                if fewer.messages.dom().contains(key) {
                    assert(order.to_set().contains(key));
                    let j = choose|j: int| 0 <= j < order.len() && order[j] == key;
                    assert(rest[j] == key);
                }
            }
            assert(rest.to_set() =~= fewer.messages.dom());
            fewer.lemma_steps_along_walk(rest);
            assert forall|j: int| 0 <= j < rest.len() implies self.steps_of(#[trigger] rest[j])
                == fewer.steps_of(rest[j]) by {
                assert(rest[j] == order[j]);
            }
            self.lemma_steps_along_agree(fewer, rest);
            self.lemma_steps_below_remove(id, 0x1_0000_0000);
        }
    }

    /// A second report of the same delivery changes nothing, whatever delay it states.
    pub proof fn lemma_delivered_idempotent(self, id: u32, steps: u32, again: u32)
        ensures
            self.delivered(id, steps).is_delivered(id),
            self.delivered(id, steps).delivered(id, again) == self.delivered(id, steps),
    {
    }
}

/// Per-request delivery state and the aggregate counters.
#[derive(Clone, Debug)]
pub struct Stats {
    total: u32,
    delivered: u32,
    messages: HashMap<u32, MessageStat>,
}

impl View for Stats {
    type V = StatsView;

    closed spec fn view(&self) -> StatsView {
        StatsView {
            total: self.total as nat,
            delivered: self.delivered as nat,
            messages: self.messages@,
        }
    }
}

impl Default for Stats {
    fn default() -> (stats: Stats)
        ensures
            stats@ == StatsView::empty(),
            stats.wf(),
    {
        Stats::new()
    }
}

impl Stats {
    /// The counters agree with the per-request states.
    pub open spec fn wf(&self) -> bool {
        self@.wf()
    }

    /// Statistics of a simulation in which nothing has happened yet.
    pub fn new() -> (stats: Stats)
        ensures
            stats@ == StatsView::empty(),
            stats.wf(),
    {
        let stats = Stats { total: 0, delivered: 0, messages: HashMap::new() };
        proof {
            assert(stats@.delivered_ids() =~= Set::<u32>::empty());
        }
        stats
    }

    /// Number of envelopes handed to recipients so far.
    pub fn total(&self) -> (total: u32)
        ensures
            total == self@.total,
    {
        self.total
    }

    /// Number of requests that reached their destination.
    pub fn delivered_count(&self) -> (count: u32)
        ensures
            count == self@.delivered,
    {
        self.delivered
    }

    /// Number of registered requests.
    pub fn registered(&self) -> (count: usize)
        ensures
            count == self@.messages.dom().len(),
    {
        self.messages.len()
    }

    /// Delivery state of request `id`, if it is registered.
    pub fn message(&self, id: u32) -> (stat: Option<MessageStat>)
        ensures
            stat == (if self@.messages.contains_key(id) {
                Some(self@.messages[id])
            } else {
                None
            }),
    {
        match self.messages.get(&id) {
            Some(stat) => Some(*stat),
            None => None,
        }
    }

    /// Whether every registered request has been delivered.
    pub fn all_delivered(&self) -> (all: bool)
        requires
            self.wf(),
        ensures
            all == self@.all_delivered(),
    {
        proof {
            self@.lemma_all_delivered_iff();
        }
        self.delivered as usize == self.messages.len()
    }

    /// The mean delivery time of the delivered requests, as the fraction of
    /// the sum of their delivery times and their number. There is no mean
    /// while nothing is delivered.
    pub fn avg_delivery_time(&self) -> (mean: Option<(u64, u32)>)
        requires
            self.wf(),
        ensures
            mean is None <==> self@.delivered == 0,
            mean matches Some(fraction) ==> fraction.0 == self@.total_steps() && fraction.1
                == self@.delivered,
    {
        let keys = walk(&self.messages);
        proof {
            lemma_walk_bounded(keys@);
            assert(keys@.take(0) =~= Seq::<u32>::empty());
        }
        let mut sum: u64 = 0;
        let mut i: usize = 0;
        while i < keys.len()
            invariant
                i <= keys.len() <= 0x1_0000_0000,
                is_walk(keys@, self@.messages.dom()),
                sum == self@.steps_along(keys@.take(i as int)),
                sum <= i * 0xFFFF_FFFF,
            decreases keys.len() - i,
        {
            let id = keys[i];
            proof {
                assert(keys@.take(i + 1).drop_last() =~= keys@.take(i as int));
                assert(keys@.take(i + 1).last() == id);
            }
            match self.messages.get(&id) {
                Some(stat) => {
                    if stat.delivered {
                        sum = sum + stat.steps as u64;
                    }
                },
                None => {},
            }
            i = i + 1;
        }
        proof {
            assert(keys@.take(keys.len() as int) =~= keys@);
            self@.lemma_steps_along_walk(keys@);
        }
        if self.delivered == 0 {
            None
        } else {
            Some((sum, self.delivered))
        }
    }

    /// Records that request `id` arrived after `steps` ticks. Returns `true`
    /// for the first report of `id` and `false` for every later one, which
    /// leaves the statistics as they are.
    pub fn delivered(&mut self, id: u32, steps: u32) -> (first: bool)
        requires
            old(self).wf(),
            !old(self)@.is_delivered(id) ==> old(self)@.delivered < u32::MAX,
        ensures
            final(self).wf(),
            first == !old(self)@.is_delivered(id),
            final(self)@ == old(self)@.delivered(id, steps),
    {
        proof {
            self@.lemma_delivered_wf(id, steps);
        }
        let known = match self.messages.get(&id) {
            Some(stat) => stat.delivered,
            None => false,
        };
        if known {
            return false;
        }
        self.delivered += 1;
        self.messages.insert(id, MessageStat { delivered: true, steps });
        true
    }

    /// Registers request `id` as injected and not yet delivered. A request
    /// that is already registered keeps its state.
    pub fn requested(&mut self, id: u32)
        requires
            old(self).wf(),
        ensures
            final(self).wf(),
            final(self)@ == old(self)@.requested(id),
    {
        proof {
            self@.lemma_requested_wf(id);
        }
        if !self.messages.contains_key(&id) {
            self.messages.insert(id, MessageStat::default());
        }
    }

    /// Counts one envelope handed to a recipient.
    pub fn on_message(&mut self)
        requires
            old(self)@.total < u32::MAX,
        ensures
            final(self)@ == old(self)@.on_message(),
            final(self).wf() == old(self).wf(),
    {
        self.total += 1;
    }
}

} // verus!
