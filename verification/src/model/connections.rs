//! The link map: which ordered pairs of agents can talk, how reliably, and
//! how late their messages arrive.

use std::collections::HashMap;
use vstd::prelude::*;

verus! {

broadcast use vstd::std_specs::hash::group_hash_axioms;

/// The smallest delay, in ticks, that a delivered message can have.
pub const MIN_DELAY: u32 = 10;

/// The mean delay, in ticks, of a link without an offset.
pub const DEFAULT_DELAY: i32 = 50;

/// The standard deviation, in ticks, of the delay of every link.
pub const DEVIATION: i32 = 10;

/// The probability 1, in the unit in which the link map stores probabilities
/// (parts per million).
pub const PROB_ONE: u32 = 1_000_000;

/// The delay, in ticks, that a raw draw of the delay distribution stands for:
/// the draw itself, but never less than [`MIN_DELAY`].
pub open spec fn clamped_delay(raw: i32) -> u32 {
    if raw < MIN_DELAY as i32 {
        MIN_DELAY
    } else {
        raw as u32
    }
}

/// The mathematical content of a [`ConnMap`].
pub ghost struct ConnView {
    /// Delivery probability of every link that is up, in parts per million.
    pub prob: Map<(u32, u32), u32>,
    /// Shift of the mean delay, for the ordered pairs that have one.
    pub delay: Map<(u32, u32), i32>,
}

impl ConnView {
    /// Every link that is up has a probability above 0 and at most 1.
    pub open spec fn wf(self) -> bool {
        forall|link: (u32, u32)| #[trigger]
            self.prob.contains_key(link) ==> 0 < self.prob[link] <= PROB_ONE
    }

    /// The map in which no link is up.
    pub open spec fn empty() -> ConnView {
        ConnView { prob: Map::empty(), delay: Map::empty() }
    }

    /// Delivery probability from `from` to `to`: 0 for a link that is down.
    pub open spec fn prob_of(self, from: u32, to: u32) -> u32 {
        if self.prob.contains_key((from, to)) {
            self.prob[(from, to)]
        } else {
            0
        }
    }

    /// Shift of the mean delay from `from` to `to`: 0 where none was set.
    pub open spec fn delay_of(self, from: u32, to: u32) -> i32 {
        if self.delay.contains_key((from, to)) {
            self.delay[(from, to)]
        } else {
            0
        }
    }

    /// Mean of the delay distribution from `from` to `to`.
    pub open spec fn mean_delay(self, from: u32, to: u32) -> int {
        DEFAULT_DELAY + self.delay_of(from, to)
    }

    /// Setting the probability of one direction; probability 0 takes the link down.
    pub open spec fn update_prob(self, from: u32, to: u32, prob: u32) -> ConnView {
        if prob == 0 {
            ConnView { prob: self.prob.remove((from, to)), ..self }
        } else {
            ConnView { prob: self.prob.insert((from, to), prob), ..self }
        }
    }

    /// Setting the delay shift of one direction.
    pub open spec fn update_delay(self, from: u32, to: u32, delay: i32) -> ConnView {
        ConnView { delay: self.delay.insert((from, to), delay), ..self }
    }

    /// Setting probability and delay shift of one direction.
    pub open spec fn update(self, from: u32, to: u32, prob: u32, delay: i32) -> ConnView {
        self.update_prob(from, to, prob).update_delay(from, to, delay)
    }

    /// Whether a message passes the link, given the outcome of sampling it.
    pub open spec fn test(self, from: u32, to: u32, draw: Option<i32>) -> bool {
        self.prob_of(from, to) > 0 && draw is Some
    }

    /// The delay of a message sent from `from` to `to`, given the outcome of
    /// sampling the link: nothing when the link is down or the message was
    /// lost, else the drawn delay, clamped from below.
    pub open spec fn get(self, from: u32, to: u32, draw: Option<i32>) -> Option<u32> {
        if self.test(from, to, draw) {
            Some(clamped_delay(draw->Some_0))
        } else {
            None
        }
    }

    /// A link that is down delivers nothing, whatever is drawn.
    pub proof fn lemma_link_down(self, from: u32, to: u32, draw: Option<i32>)
        requires
            self.prob_of(from, to) == 0,
        ensures
            self.get(from, to, draw) is None,
    {
    }

    /// A lost message has no delay, whatever the link.
    pub proof fn lemma_lost(self, from: u32, to: u32)
        ensures
            self.get(from, to, None) is None,
    {
    }

    /// Every delay is at least [`MIN_DELAY`], so a delivery is always later
    /// than its sending.
    pub proof fn lemma_delay_positive(self, from: u32, to: u32, draw: Option<i32>)
        ensures
            self.get(from, to, draw) matches Some(delay) ==> MIN_DELAY <= delay <= i32::MAX,
    {
    }

    /// Taking a link down in both directions silences both.
    pub proof fn lemma_both_down(self, first: u32, second: u32, delay: i32)
        ensures
            ({
                let after = self.update(first, second, 0, delay).update(second, first, 0, delay);
                after.prob_of(first, second) == 0 && after.prob_of(second, first) == 0
            }),
    {
    }
}

/// The position of the ordered pair `(from, to)` in the tables of a [`ConnMap`].
pub open spec fn link_key(from: u32, to: u32) -> u64 {
    (from as u64 * 0x1_0000_0000 + to as u64) as u64
}

/// Distinct ordered pairs have distinct positions.
pub proof fn lemma_link_key_injective(a: (u32, u32), b: (u32, u32))
    ensures
        link_key(a.0, a.1) == link_key(b.0, b.1) <==> a == b,
{
}

fn key_of(from: u32, to: u32) -> (key: u64)
    ensures
        key == link_key(from, to),
{
    from as u64 * 0x1_0000_0000 + to as u64
}

/// Link parameters per ordered pair of agents.
#[derive(Clone, Debug)]
pub struct ConnMap {
    prob: HashMap<u64, u32>,
    delay: HashMap<u64, i32>,
}

impl View for ConnMap {
    type V = ConnView;

    closed spec fn view(&self) -> ConnView {
        ConnView {
            prob: Map::new(
                |link: (u32, u32)| self.prob@.contains_key(link_key(link.0, link.1)),
                |link: (u32, u32)| self.prob@[link_key(link.0, link.1)],
            ),
            delay: Map::new(
                |link: (u32, u32)| self.delay@.contains_key(link_key(link.0, link.1)),
                |link: (u32, u32)| self.delay@[link_key(link.0, link.1)],
            ),
        }
    }
}

impl Default for ConnMap {
    fn default() -> (conn: ConnMap)
        ensures
            conn@ == ConnView::empty(),
            conn.wf(),
    {
        ConnMap::new()
    }
}

impl ConnMap {
    /// Every link that is up has a probability above 0 and at most 1.
    pub open spec fn wf(&self) -> bool {
        self@.wf()
    }

    /// A map in which no link is up.
    pub fn new() -> (conn: ConnMap)
        ensures
            conn@ == ConnView::empty(),
            conn.wf(),
    {
        let conn = ConnMap { prob: HashMap::new(), delay: HashMap::new() };
        proof {
            assert(conn@.prob =~= Map::empty());
            assert(conn@.delay =~= Map::empty());
        }
        conn
    }

    /// Sets the delivery probability from `from` to `to`, in parts per
    /// million. Probability 0 takes the link down.
    pub fn update_prob(&mut self, from: u32, to: u32, prob: u32)
        requires
            old(self).wf(),
            prob <= PROB_ONE,
        ensures
            final(self).wf(),
            final(self)@ == old(self)@.update_prob(from, to, prob),
    {
        let key = key_of(from, to);
        if prob == 0 {
            self.prob.remove(&key);
        } else {
            self.prob.insert(key, prob);
        }
        proof {
            let after = old(self)@.update_prob(from, to, prob);
            assert forall|link: (u32, u32)| self@.prob.contains_key(link) == after.prob.contains_key(
                link,
            ) && (self@.prob.contains_key(link) ==> self@.prob[link] == after.prob[link]) by {
                lemma_link_key_injective(link, (from, to));
            }
            assert(self@.prob =~= after.prob);
            assert(self@.delay =~= after.delay);
        }
    }

    /// Sets the delivery probability in both directions between two agents.
    pub fn update_prob_both(&mut self, first: u32, second: u32, prob: u32)
        requires
            old(self).wf(),
            prob <= PROB_ONE,
        ensures
            final(self).wf(),
            final(self)@ == old(self)@.update_prob(first, second, prob).update_prob(
                second,
                first,
                prob,
            ),
    {
        self.update_prob(first, second, prob);
        self.update_prob(second, first, prob);
    }

    /// Sets the shift of the mean delay from `from` to `to`.
    pub fn update_delay(&mut self, from: u32, to: u32, delay: i32)
        ensures
            final(self).wf() == old(self).wf(),
            final(self)@ == old(self)@.update_delay(from, to, delay),
    {
        let key = key_of(from, to);
        self.delay.insert(key, delay);
        proof {
            let after = old(self)@.update_delay(from, to, delay);
            assert forall|link: (u32, u32)| self@.delay.contains_key(link)
                == after.delay.contains_key(link) && (self@.delay.contains_key(link)
                ==> self@.delay[link] == after.delay[link]) by {
                lemma_link_key_injective(link, (from, to));
            }
            assert(self@.delay =~= after.delay);
            assert(self@.prob =~= after.prob);
        }
    }

    /// Sets the shift of the mean delay in both directions between two agents.
    pub fn update_delay_both(&mut self, first: u32, second: u32, delay: i32)
        ensures
            final(self).wf() == old(self).wf(),
            final(self)@ == old(self)@.update_delay(first, second, delay).update_delay(
                second,
                first,
                delay,
            ),
    {
        self.update_delay(first, second, delay);
        self.update_delay(second, first, delay);
    }

    /// Sets probability and delay shift from `from` to `to`.
    pub fn update(&mut self, from: u32, to: u32, prob: u32, delay: i32)
        requires
            old(self).wf(),
            prob <= PROB_ONE,
        ensures
            final(self).wf(),
            final(self)@ == old(self)@.update(from, to, prob, delay),
    {
        self.update_prob(from, to, prob);
        self.update_delay(from, to, delay);
    }

    /// Sets probability and delay shift in both directions between two agents.
    pub fn update_both(&mut self, first: u32, second: u32, prob: u32, delay: i32)
        requires
            old(self).wf(),
            prob <= PROB_ONE,
        ensures
            final(self).wf(),
            final(self)@ == old(self)@.update(first, second, prob, delay).update(
                second,
                first,
                prob,
                delay,
            ),
    {
        self.update(first, second, prob, delay);
        self.update(second, first, prob, delay);
    }

    /// Delivery probability from `from` to `to`, in parts per million; 0 for
    /// a link that is down.
    pub fn prob(&self, from: u32, to: u32) -> (prob: u32)
        ensures
            prob == self@.prob_of(from, to),
            self.wf() ==> prob <= PROB_ONE,
    {
        let key = key_of(from, to);
        match self.prob.get(&key) {
            Some(prob) => {
                assert(self@.prob.contains_key((from, to)));
                *prob
            },
            None => 0,
        }
    }

    /// Shift of the mean delay from `from` to `to`; 0 where none was set.
    pub fn delay(&self, from: u32, to: u32) -> (delay: i32)
        ensures
            delay == self@.delay_of(from, to),
    {
        let key = key_of(from, to);
        match self.delay.get(&key) {
            Some(delay) => *delay,
            None => 0,
        }
    }

    /// Mean of the delay distribution from `from` to `to`, in ticks.
    pub fn mean_delay(&self, from: u32, to: u32) -> (mean: i64)
        ensures
            mean == self@.mean_delay(from, to),
    {
        DEFAULT_DELAY as i64 + self.delay(from, to) as i64
    }

    /// Whether a message from `from` to `to` passes the link. `draw` is the
    /// outcome of sampling the link: `None` when the message was lost, else a
    /// raw draw of the delay distribution.
    pub fn test(&self, from: u32, to: u32, draw: Option<i32>) -> (passes: bool)
        ensures
            passes == self@.test(from, to, draw),
    {
        self.prob(from, to) > 0 && draw.is_some()
    }

    /// The delay, in ticks, of a message from `from` to `to`, or `None` when
    /// it does not arrive. `draw` is the outcome of sampling the link: `None`
    /// when the message was lost, else a raw draw of the delay distribution,
    /// which is clamped to [`MIN_DELAY`] from below.
    pub fn get(&self, from: u32, to: u32, draw: Option<i32>) -> (delay: Option<u32>)
        ensures
            delay == self@.get(from, to, draw),
            delay matches Some(ticks) ==> MIN_DELAY <= ticks <= i32::MAX,
            self@.prob_of(from, to) == 0 ==> delay is None,
    {
        if !self.test(from, to, draw) {
            return None;
        }
        match draw {
            Some(raw) => {
                if raw < MIN_DELAY as i32 {
                    Some(MIN_DELAY)
                } else {
                    Some(raw as u32)
                }
            },
            None => None,
        }
    }
}

} // verus!
