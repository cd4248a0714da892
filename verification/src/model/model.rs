//! The engine: logical time, the delivery buffer and the per-tick protocol.

use super::connections::{ConnMap, ConnView, MIN_DELAY};
use super::message::{Message, MessageType, RequestMessage};
use super::stats::{Stats, StatsView};
use crate::walk::lemma_contains_push;
use rand::distributions::{Distribution, Uniform};
use rand::rngs::ThreadRng;
use rand::seq::SliceRandom;
use std::collections::HashMap;
use vstd::prelude::*;

verus! {

broadcast use vstd::std_specs::hash::group_hash_axioms;

/// The handle to the thread-local generator of `rand`. Nothing is known of
/// its state.
#[verifier::external_type_specification]
#[verifier::external_body]
pub struct ExThreadRng(ThreadRng);

/// `rand::thread_rng`: a handle to the generator of the calling thread.
#[verifier::external_body]
fn thread_rng() -> ThreadRng {
    rand::thread_rng()
}

/// `rand::seq::SliceRandom::shuffle` on the envelopes of one bucket. The call
/// only swaps elements of the slice, so what comes out is a rearrangement of
/// what went in; which one is left open.
#[verifier::external_body]
fn shuffle<T>(envelopes: &mut Vec<Message<T>>, rng: &mut ThreadRng)
    ensures
        final(envelopes)@.to_multiset() == old(envelopes)@.to_multiset(),
{
    envelopes.shuffle(rng);
}

/// `rand::distributions::Uniform::sample` on the distribution that
/// `Uniform::from` makes of the range `0..bound`: some number below `bound`,
/// and nothing more is known of it. The range must not be empty, or its
/// construction panics.
#[verifier::external_body]
fn sample_below(rng: &mut ThreadRng, bound: u32) -> (n: u32)
    requires
        bound > 0,
    ensures
        n < bound,
{
    Uniform::from(0..bound).sample(rng)
}

/// `envelope` is protocol traffic from `from` to `to` whose payload is a
/// clone of `payload`.
pub open spec fn is_copy<T: Clone>(envelope: Message<T>, from: u32, to: u32, payload: T) -> bool {
    &&& envelope.from == from
    &&& envelope.to == to
    &&& envelope.data matches MessageType::Comm(carried)
    &&& cloned(payload, carried)
}

/// The agents below `n`, in ascending order, that a broadcast from `from`
/// reaches after exactly `delay` ticks, where `draws[to]` is the outcome of
/// sampling the link to agent `to`.
pub open spec fn recipients(
    conn: ConnView,
    from: u32,
    draws: Seq<Option<i32>>,
    delay: int,
    n: nat,
) -> Seq<u32>
    decreases n,
{
    if n == 0 {
        Seq::empty()
    } else {
        let before = recipients(conn, from, draws, delay, (n - 1) as nat);
        let to = (n - 1) as u32;
        if conn.get(from, to, draws[n - 1]) matches Some(ticks) && ticks == delay {
            before.push(to)
        } else {
            before
        }
    }
}

/// No broadcast reaches anyone sooner than after [`MIN_DELAY`] ticks.
pub proof fn lemma_no_early_recipients(
    conn: ConnView,
    from: u32,
    draws: Seq<Option<i32>>,
    delay: int,
    n: nat,
)
    requires
        delay < MIN_DELAY,
    ensures
        recipients(conn, from, draws, delay, n) == Seq::<u32>::empty(),
    decreases n,
{
    if n > 0 {
        lemma_no_early_recipients(conn, from, draws, delay, (n - 1) as nat);
    }
}

/// Every recipient of a broadcast is below the bound up to which they were
/// collected, and its link delivered with the delay asked for.
pub proof fn lemma_recipients_delivered(
    conn: ConnView,
    from: u32,
    draws: Seq<Option<i32>>,
    delay: int,
    n: nat,
    j: int,
)
    requires
        0 <= j < recipients(conn, from, draws, delay, n).len(),
        n <= u32::MAX,
    ensures
        recipients(conn, from, draws, delay, n)[j] < n,
        conn.get(from, recipients(conn, from, draws, delay, n)[j], draws[recipients(conn, from, draws, delay, n)[j] as int])
            matches Some(ticks) && ticks == delay,
    decreases n,
{
    if n > 0 {
        let before = recipients(conn, from, draws, delay, (n - 1) as nat);
        if j < before.len() {
            lemma_recipients_delivered(conn, from, draws, delay, (n - 1) as nat, j);
        }
    }
}

/// A link that delivers nothing keeps its agent out of every broadcast:
/// whatever the delay asked for, `to` is not among the recipients.
pub proof fn lemma_silent_link(
    conn: ConnView,
    from: u32,
    draws: Seq<Option<i32>>,
    delay: int,
    n: nat,
    to: u32,
)
    requires
        conn.get(from, to, draws[to as int]) is None,
        n <= u32::MAX,
    ensures
        !recipients(conn, from, draws, delay, n).contains(to),
    decreases n,
{
    if n > 0 {
        lemma_silent_link(conn, from, draws, delay, (n - 1) as nat, to);
        let before = recipients(conn, from, draws, delay, (n - 1) as nat);
        lemma_contains_push(before, (n - 1) as u32, to);
    }
}

/// A bucket grew from `before` to `after` by one copy of `payload` for each
/// of `recips`, in that order.
pub open spec fn grows_by<T: Clone>(
    before: Seq<Message<T>>,
    after: Seq<Message<T>>,
    from: u32,
    recips: Seq<u32>,
    payload: T,
) -> bool {
    &&& after.len() == before.len() + recips.len()
    &&& after.subrange(0, before.len() as int) == before
    &&& forall|j: int|
        0 <= j < recips.len() ==> is_copy(#[trigger] after[before.len() + j], from, recips[j], payload)
}

/// One envelope that a tick's emissions put into the delivery buffer: a copy
/// of the payload of emission number `source`, addressed to agent `to`.
pub ghost struct Arrival {
    pub source: int,
    pub to: u32,
}

/// The link outcomes of each emission, as sequences.
pub open spec fn draw_rows(draws: Seq<Vec<Option<i32>>>) -> Seq<Seq<Option<i32>>> {
    Seq::new(draws.len(), |i: int| draws[i]@)
}

/// The envelopes that the first `k` emissions of a tick schedule exactly
/// `delay` ticks ahead, in the order in which the engine takes them in:
/// emission by emission, and within a broadcast by ascending recipient.
/// `draws[i][to]` is the outcome of sampling the link from the sender of
/// emission `i` to agent `to`. Reports of final delivery schedule nothing.
pub open spec fn arrivals<T>(
    conn: ConnView,
    emissions: Seq<(u32, MessageType<T>)>,
    draws: Seq<Seq<Option<i32>>>,
    size: u32,
    delay: int,
    k: nat,
) -> Seq<Arrival>
    decreases k,
{
    if k == 0 {
        Seq::empty()
    } else {
        let before = arrivals(conn, emissions, draws, size, delay, (k - 1) as nat);
        match emissions[k - 1].1 {
            MessageType::Comm(_) => before + recipients(
                conn,
                emissions[k - 1].0,
                draws[k - 1],
                delay,
                size as nat,
            ).map_values(|to: u32| Arrival { source: k - 1, to }),
            MessageType::Request(_) => before,
        }
    }
}

/// `envelope` is what `arrival` describes: a copy of the payload of the
/// emission it names, from that emission's sender to the agent it names.
pub open spec fn arrives<T: Clone>(
    envelope: Message<T>,
    arrival: Arrival,
    emissions: Seq<(u32, MessageType<T>)>,
) -> bool {
    &&& 0 <= arrival.source < emissions.len()
    &&& emissions[arrival.source].1 matches MessageType::Comm(payload)
    &&& is_copy(envelope, emissions[arrival.source].0, arrival.to, payload)
}

/// A bucket grew from `before` to `after` by the envelopes that `arrived`
/// describes, in that order.
pub open spec fn extended_by<T: Clone>(
    before: Seq<Message<T>>,
    after: Seq<Message<T>>,
    arrived: Seq<Arrival>,
    emissions: Seq<(u32, MessageType<T>)>,
) -> bool {
    &&& after.len() == before.len() + arrived.len()
    &&& after.subrange(0, before.len() as int) == before
    &&& forall|j: int|
        0 <= j < arrived.len() ==> arrives(#[trigger] after[before.len() + j], arrived[j], emissions)
}

/// A bucket that had grown from `base` to `prev` by the arrivals of the first
/// `i` emissions, and then from `prev` to `cur` by the broadcast of emission
/// `i`, has grown from `base` to `cur` by the arrivals of the first `i + 1`.
pub proof fn lemma_extended_by_broadcast<T: Clone>(
    base: Seq<Message<T>>,
    prev: Seq<Message<T>>,
    cur: Seq<Message<T>>,
    conn: ConnView,
    emissions: Seq<(u32, MessageType<T>)>,
    draws: Seq<Seq<Option<i32>>>,
    size: u32,
    delay: int,
    i: int,
)
    requires
        0 <= i < emissions.len(),
        emissions[i].1 is Comm,
        extended_by(base, prev, arrivals(conn, emissions, draws, size, delay, i as nat), emissions),
        grows_by(
            prev,
            cur,
            emissions[i].0,
            recipients(conn, emissions[i].0, draws[i], delay, size as nat),
            emissions[i].1->Comm_0,
        ),
    ensures
        extended_by(
            base,
            cur,
            arrivals(conn, emissions, draws, size, delay, (i + 1) as nat),
            emissions,
        ),
{
    let earlier = arrivals(conn, emissions, draws, size, delay, i as nat);
    let reached = recipients(conn, emissions[i].0, draws[i], delay, size as nat);
    let fresh = reached.map_values(|to: u32| Arrival { source: i, to });
    let all = arrivals(conn, emissions, draws, size, delay, (i + 1) as nat);
    assert(all == earlier + fresh);
    assert(cur.subrange(0, base.len() as int) =~= prev.subrange(0, base.len() as int)) by {
        assert(cur.subrange(0, prev.len() as int) == prev);
        assert forall|j: int| 0 <= j < base.len() implies cur[j] == prev[j] by {
            assert(cur.subrange(0, prev.len() as int)[j] == cur[j]);
        }
    }
    assert forall|j: int| 0 <= j < all.len() implies arrives(
        #[trigger] cur[base.len() + j],
        all[j],
        emissions,
    ) by {
        if j < earlier.len() {
            assert(cur.subrange(0, prev.len() as int)[base.len() + j] == cur[base.len() + j]);
            assert(arrives(prev[base.len() + j], earlier[j], emissions));
        } else {
            let r = j - earlier.len();
            assert(is_copy(cur[prev.len() + r], emissions[i].0, reached[r], emissions[i].1->Comm_0));
            assert(fresh[r] == Arrival { source: i, to: reached[r] });
        }
    }
}

/// No emission schedules anything sooner than [`MIN_DELAY`] ticks ahead.
pub proof fn lemma_no_early_arrivals<T>(
    conn: ConnView,
    emissions: Seq<(u32, MessageType<T>)>,
    draws: Seq<Seq<Option<i32>>>,
    size: u32,
    delay: int,
    k: nat,
)
    requires
        delay < MIN_DELAY,
    ensures
        arrivals(conn, emissions, draws, size, delay, k) == Seq::<Arrival>::empty(),
    decreases k,
{
    if k > 0 {
        lemma_no_early_arrivals(conn, emissions, draws, size, delay, (k - 1) as nat);
        lemma_no_early_recipients(conn, emissions[k - 1].0, draws[k - 1], delay, size as nat);
        assert(Seq::<u32>::empty().map_values(|to: u32| Arrival { source: k - 1, to })
            =~= Seq::<Arrival>::empty());
        assert(Seq::<Arrival>::empty() + Seq::<Arrival>::empty() =~= Seq::<Arrival>::empty());
    }
}

/// The statistics after the reports of final delivery among the first `k`
/// emissions of tick `now` were taken in, in order. A report counts when the
/// request is addressed to the agent that reports it; the first report of a
/// request records `now - start` as its delivery time.
pub open spec fn reported<T>(
    stats: StatsView,
    emissions: Seq<(u32, MessageType<T>)>,
    now: u32,
    k: nat,
) -> StatsView
    decreases k,
{
    if k == 0 {
        stats
    } else {
        let before = reported(stats, emissions, now, (k - 1) as nat);
        match emissions[k - 1].1 {
            MessageType::Request(request) => if request.to == emissions[k - 1].0 {
                before.delivered(request.id, (now - request.start) as u32)
            } else {
                before
            },
            MessageType::Comm(_) => before,
        }
    }
}

/// Reports of final delivery leave the count of handed-over envelopes alone.
pub proof fn lemma_reported_total<T>(
    stats: StatsView,
    emissions: Seq<(u32, MessageType<T>)>,
    now: u32,
    k: nat,
)
    ensures
        reported(stats, emissions, now, k).total == stats.total,
    decreases k,
{
    if k > 0 {
        lemma_reported_total(stats, emissions, now, (k - 1) as nat);
    }
}

/// Whether the reports of final delivery among `emissions` can be taken in
/// at tick `now`: no counted request claims to start after `now`, and the
/// delivery counter has room for every first delivery.
pub open spec fn reports_fit<T>(
    stats: StatsView,
    emissions: Seq<(u32, MessageType<T>)>,
    now: u32,
) -> bool {
    forall|k: int|
        0 <= k < emissions.len() ==> (#[trigger] emissions[k].1 matches MessageType::Request(
            request,
        ) ==> request.to == emissions[k].0 ==> {
            &&& request.start <= now
            &&& !reported(stats, emissions, now, k as nat).is_delivered(request.id) ==> reported(
                stats,
                emissions,
                now,
                k as nat,
            ).delivered < u32::MAX
        })
}

/// Whether the broadcasts among `emissions` can be scheduled from tick
/// `now`: each has a link outcome for every agent, and no delivery tick
/// leaves the range of the tick counter.
pub open spec fn broadcasts_fit<T>(
    conn: ConnView,
    emissions: Seq<(u32, MessageType<T>)>,
    draws: Seq<Seq<Option<i32>>>,
    size: u32,
    now: u32,
) -> bool {
    &&& draws.len() == emissions.len()
    &&& forall|k: int|
        0 <= k < emissions.len() ==> (#[trigger] emissions[k].1 is Comm ==> {
            &&& draws[k].len() == size
            &&& forall|to: u32|
                to < size ==> (#[trigger] conn.get(emissions[k].0, to, draws[k][to as int])
                    matches Some(delay) ==> now + delay <= u32::MAX)
        })
}

/// The request envelope that the engine hands to agent `from` when a request
/// for `to` is injected at tick `start` under the id `id`.
pub open spec fn injected<T>(from: u32, to: u32, start: u32, id: u32) -> Message<T> {
    Message { data: MessageType::Request(RequestMessage { from, to, start, id }), from, to }
}

/// Why a report of final delivery was discarded.
#[derive(Debug, Copy, Clone, PartialEq, Eq, Structural)]
pub enum DeliveryError {
    /// The request is addressed to another agent than the one that reports it.
    WrongDestination,
}

impl DeliveryError {
    /// A description of the error, for logs.
    pub fn message(&self) -> (text: &'static str)
        ensures
            text@ == "wrong destination id"@,
    {
        "wrong destination id"
    }
}

/// What one tick of the engine yields.
#[derive(Debug, PartialEq, Eq)]
pub struct StepOutcome<T> {
    /// The tick to publish to the agents.
    pub tick: u32,
    /// The envelopes to hand to their recipients, in this order.
    pub deliveries: Vec<Message<T>>,
}

/// The count of "done" signals that the engine awaits before a tick.
#[derive(Debug)]
pub struct Barrier {
    expected: u32,
    arrived: u32,
}

impl Barrier {
    /// Number of signals that complete the barrier: one per agent.
    pub closed spec fn expected(&self) -> nat {
        self.expected as nat
    }

    /// Number of signals received so far.
    pub closed spec fn arrived(&self) -> nat {
        self.arrived as nat
    }

    /// No more signals were received than are expected.
    pub open spec fn wf(&self) -> bool {
        self.arrived() <= self.expected()
    }

    /// Every agent has signalled.
    pub open spec fn complete(&self) -> bool {
        self.arrived() == self.expected()
    }

    /// A barrier is complete after exactly one signal per agent: not before,
    /// and a complete barrier takes no further signal.
    pub proof fn lemma_complete_is_exact(&self)
        requires
            self.wf(),
        ensures
            self.complete() <==> self.arrived() == self.expected(),
            !self.complete() ==> self.arrived() < self.expected(),
    {
    }

    /// A barrier for `expected` agents, none of which has signalled.
    pub fn new(expected: u32) -> (barrier: Barrier)
        ensures
            barrier.wf(),
            barrier.expected() == expected,
            barrier.arrived() == 0,
    {
        Barrier { expected, arrived: 0 }
    }

    /// Whether every agent has signalled.
    pub fn is_complete(&self) -> (complete: bool)
        ensures
            complete == self.complete(),
    {
        self.arrived == self.expected
    }

    /// Number of signals still awaited.
    pub fn remaining(&self) -> (left: u32)
        requires
            self.wf(),
        ensures
            left == self.expected() - self.arrived(),
    {
        self.expected - self.arrived
    }

    /// Takes in one "done" signal.
    pub fn arrive(&mut self)
        requires
            old(self).wf(),
            !old(self).complete(),
        ensures
            final(self).wf(),
            final(self).expected() == old(self).expected(),
            final(self).arrived() == old(self).arrived() + 1,
    {
        self.arrived = self.arrived + 1;
    }
}

/// The agent-side record of identity and logical time.
#[derive(Debug)]
pub struct Context {
    id: u32,
    step: u32,
}

impl Context {
    /// The agent's identifier.
    pub closed spec fn spec_id(&self) -> u32 {
        self.id
    }

    /// The last tick that the agent has observed.
    pub closed spec fn spec_step(&self) -> u32 {
        self.step
    }

    /// The agent's identifier.
    pub fn id(&self) -> (id: u32)
        ensures
            id == self.spec_id(),
    {
        self.id
    }

    /// The last tick that the agent has observed.
    pub fn current_step(&self) -> (step: u32)
        ensures
            step == self.spec_step(),
    {
        self.step
    }

    /// Stamps an emission with the agent's identifier: the pair that goes
    /// into the engine's common ingress.
    pub fn send<T>(&self, data: MessageType<T>) -> (emission: (u32, MessageType<T>))
        ensures
            emission == (self.spec_id(), data),
    {
        (self.id, data)
    }

    /// Ends a suspension. `published` is the tick that the engine has
    /// published, or nothing when the engine is gone. A published tick
    /// becomes the agent's current tick and is returned; ticks are observed
    /// in strictly increasing order. When the engine is gone the agent keeps
    /// its tick and is told to shut down.
    pub fn next_step(&mut self, published: Option<u32>) -> (woken: Result<u32, Shutdown>)
        requires
            published matches Some(tick) ==> old(self).spec_step() < tick,
        ensures
            final(self).spec_id() == old(self).spec_id(),
            match published {
                Some(tick) => woken == Ok::<u32, Shutdown>(tick) && final(self).spec_step() == tick
                    && final(self).spec_step() > old(self).spec_step(),
                None => woken == Err::<u32, Shutdown>(Shutdown) && final(self).spec_step() == old(
                    self,
                ).spec_step(),
            },
    {
        match published {
            Some(tick) => {
                self.step = tick;
                Ok(tick)
            },
            None => Err(Shutdown),
        }
    }

    /// One round of waiting for a message: with a message from the mailbox
    /// the wait is over, without one the agent suspends for a tick.
    pub fn read_one<T>(polled: Option<Message<T>>) -> (next: Wait<T>)
        ensures
            next == (match polled {
                Some(message) => Wait::Ready(message),
                None => Wait::Suspend,
            }),
    {
        match polled {
            Some(message) => Wait::Ready(message),
            None => Wait::Suspend,
        }
    }

    /// One round of waiting for a message for at most `left` more ticks.
    /// With no tick left the wait has expired. Else the mailbox decides as
    /// in [`Context::read_one`], and a suspension uses up one tick. The
    /// mailbox is polled only while ticks are left.
    pub fn read_for<T>(left: u32, polled: Option<Message<T>>) -> (next: (Wait<T>, u32))
        requires
            left == 0 ==> polled is None,
        ensures
            next == spec_read_for(left, polled),
    {
        if left == 0 {
            (Wait::Expired, 0)
        } else {
            match polled {
                Some(message) => (Wait::Ready(message), left),
                None => (Wait::Suspend, left - 1),
            }
        }
    }

    /// One round of waiting for a message without a limit.
    pub fn read<T>(polled: Option<Message<T>>) -> (next: Wait<T>)
        ensures
            next == (match polled {
                Some(message) => Wait::Ready(message),
                None => Wait::Suspend,
            }),
            !(next is Expired),
    {
        Context::read_one(polled)
    }

    /// One round of sleeping for `left` more ticks: whether the agent
    /// suspends once more, and the ticks left after that.
    pub fn sleep(left: u32) -> (next: (bool, u32))
        ensures
            next == (if left == 0 {
                (false, 0u32)
            } else {
                (true, (left - 1) as u32)
            }),
    {
        if left == 0 {
            (false, 0)
        } else {
            (true, left - 1)
        }
    }
}

/// What an agent that waits for a message does next.
#[derive(Debug, PartialEq, Eq)]
pub enum Wait<T> {
    /// A message has arrived: the wait is over.
    Ready(Message<T>),
    /// The mailbox is empty: signal the barrier and suspend until the next
    /// tick.
    Suspend,
    /// The ticks to wait have passed without a message.
    Expired,
}

/// The engine is gone: the agent has to stop.
#[derive(Debug, Copy, Clone, PartialEq, Eq, Structural)]
pub struct Shutdown;

/// One round of a wait for at most `left` more ticks.
pub open spec fn spec_read_for<T>(left: u32, polled: Option<Message<T>>) -> (Wait<T>, u32) {
    if left == 0 {
        (Wait::Expired, 0)
    } else {
        match polled {
            Some(message) => (Wait::Ready(message), left),
            None => (Wait::Suspend, (left - 1) as u32),
        }
    }
}

/// A wait for `ticks` ticks on an empty mailbox suspends exactly `ticks`
/// times and then expires.
pub proof fn lemma_read_for_expires<T>(ticks: u32)
    ensures
        ticks > 0 ==> spec_read_for::<T>(ticks, None) == (Wait::<T>::Suspend, (ticks - 1) as u32),
        spec_read_for::<T>(0, None) == (Wait::<T>::Expired, 0u32),
{
}

/// The agent of rank `rank` among the agents other than `first`, counted in
/// ascending order from 0.
pub open spec fn spec_nth_other(first: u32, rank: u32) -> int {
    if rank >= first {
        rank + 1
    } else {
        rank as int
    }
}

/// The agent of rank `rank` among the agents other than `first`.
pub fn nth_other(first: u32, rank: u32) -> (other: u32)
    requires
        rank < u32::MAX,
    ensures
        other == spec_nth_other(first, rank),
        other != first,
{
    if rank >= first {
        rank + 1
    } else {
        rank
    }
}

/// Ranking the other agents reaches each of them once: distinct ranks give
/// distinct agents, none of them `first`, and with `size` agents the ranks
/// below `size - 1` stay below `size`.
pub proof fn lemma_nth_other(first: u32, rank: u32, other_rank: u32, size: u32)
    requires
        first < size,
        rank < size - 1,
        other_rank < size - 1,
    ensures
        spec_nth_other(first, rank) != first,
        spec_nth_other(first, rank) < size,
        spec_nth_other(first, rank) == spec_nth_other(first, other_rank) ==> rank == other_rank,
{
}

/// The simulation engine. It owns the link map, the delivery buffer and the
/// statistics, and advances logical time one tick at a time.
pub struct Model<T> {
    size: u32,
    step: u32,
    buffer: HashMap<u32, Vec<Message<T>>>,
    rng: ThreadRng,
    conn: ConnMap,
    messages: u32,
    stats: Stats,
}

impl<T: Clone> Model<T> {
    /// Number of agents.
    pub closed spec fn spec_size(&self) -> u32 {
        self.size
    }

    /// The current tick.
    pub closed spec fn spec_step(&self) -> u32 {
        self.step
    }

    /// The id that the next injected request gets; also the number of
    /// requests injected so far.
    pub closed spec fn next_id(&self) -> u32 {
        self.messages
    }

    /// The link map.
    pub closed spec fn spec_conn(&self) -> ConnMap {
        self.conn
    }

    /// The delivery statistics.
    pub closed spec fn spec_stats(&self) -> Stats {
        self.stats
    }

    /// The envelopes waiting for release at tick `at`, in the order in which
    /// they were scheduled.
    pub closed spec fn scheduled(&self, at: u32) -> Seq<Message<T>> {
        if self.buffer@.contains_key(at) {
            self.buffer@[at]@
        } else {
            Seq::empty()
        }
    }

    /// The engine's invariant: link map and statistics are consistent, every
    /// waiting envelope is due after the current tick, and is addressed to an
    /// agent of the population.
    pub open spec fn wf(&self) -> bool {
        &&& self.spec_conn().wf()
        &&& self.spec_stats().wf()
        &&& forall|at: u32| #[trigger] self.scheduled(at).len() > 0 ==> at > self.spec_step()
        &&& forall|at: u32, i: int|
            0 <= i < self.scheduled(at).len() ==> (#[trigger] self.scheduled(at)[i]).to
                < self.spec_size()
    }

    /// Whether two engines agree on everything but the delivery buffer.
    pub open spec fn same_frame(&self, other: &Self) -> bool {
        &&& self.spec_size() == other.spec_size()
        &&& self.spec_step() == other.spec_step()
        &&& self.next_id() == other.next_id()
        &&& self.spec_conn()@ == other.spec_conn()@
        &&& self.spec_stats()@ == other.spec_stats()@
    }

    /// Whether two engines agree on everything but the statistics and the
    /// count of injected requests.
    pub open spec fn same_but_stats(&self, other: &Self) -> bool {
        &&& self.spec_size() == other.spec_size()
        &&& self.spec_step() == other.spec_step()
        &&& self.spec_conn()@ == other.spec_conn()@
        &&& forall|at: u32| self.scheduled(at) == other.scheduled(at)
    }

    /// Whether two engines agree on everything but the link map.
    pub open spec fn same_but_links(&self, other: &Self) -> bool {
        &&& self.spec_size() == other.spec_size()
        &&& self.spec_step() == other.spec_step()
        &&& self.next_id() == other.next_id()
        &&& self.spec_stats()@ == other.spec_stats()@
        &&& forall|at: u32| self.scheduled(at) == other.scheduled(at)
    }

    /// Engines with the same delivery buffer have the same envelopes waiting.
    proof fn lemma_buffer_kept(&self, other: &Self)
        requires
            self.buffer == other.buffer,
        ensures
            forall|at: u32| self.scheduled(at) == other.scheduled(at),
    {
    }

    /// Number of agents.
    pub fn size(&self) -> (size: u32)
        ensures
            size == self.spec_size(),
    {
        self.size
    }

    /// The current tick.
    pub fn current_step(&self) -> (step: u32)
        ensures
            step == self.spec_step(),
    {
        self.step
    }

    /// Number of requests injected so far.
    pub fn requested(&self) -> (count: u32)
        ensures
            count == self.next_id(),
    {
        self.messages
    }

    /// The link map.
    pub fn conn(&self) -> (conn: &ConnMap)
        ensures
            *conn == self.spec_conn(),
    {
        &self.conn
    }

    /// The link map, for changing links between ticks.
    pub fn conn_mut(&mut self) -> (conn: &mut ConnMap)
        ensures
            *conn == old(self).spec_conn(),
            final(self).spec_conn() == *final(conn),
            final(self).same_but_links(old(self)),
    {
        &mut self.conn
    }

    /// The delivery statistics.
    pub fn stats(&self) -> (stats: &Stats)
        ensures
            *stats == self.spec_stats(),
    {
        &self.stats
    }

    /// Number of envelopes waiting for release at tick `at`.
    pub fn pending(&self, at: u32) -> (count: usize)
        ensures
            count == self.scheduled(at).len(),
    {
        match self.buffer.get(&at) {
            Some(bucket) => bucket.len(),
            None => 0,
        }
    }

    /// Sends `data` from `from` to `to` through the link layer. `draw` is the
    /// outcome of sampling the link. When the link delivers with delay `d`, a
    /// copy of `data` is appended to the bucket of tick `now + d`; otherwise
    /// nothing changes.
    pub fn send_message(&mut self, from: u32, to: u32, data: &T, draw: Option<i32>)
        requires
            old(self).wf(),
            to < old(self).spec_size(),
            old(self).spec_conn()@.get(from, to, draw) matches Some(delay) ==> old(self).spec_step()
                + delay <= u32::MAX,
        ensures
            final(self).wf(),
            final(self).same_frame(old(self)),
            match old(self).spec_conn()@.get(from, to, draw) {
                Some(delay) => {
                    let at = (old(self).spec_step() + delay) as u32;
                    &&& at > old(self).spec_step()
                    &&& final(self).scheduled(at).len() == old(self).scheduled(at).len() + 1
                    &&& final(self).scheduled(at).drop_last() == old(self).scheduled(at)
                    &&& is_copy(final(self).scheduled(at).last(), from, to, *data)
                    &&& forall|other: u32|
                        other != at ==> final(self).scheduled(other) == old(self).scheduled(other)
                },
                None => forall|at: u32| final(self).scheduled(at) == old(self).scheduled(at),
            },
    {
        match self.conn.get(from, to, draw) {
            Some(delay) => {
                let at = self.step + delay;
                let envelope = Message { data: MessageType::Comm(data.clone()), from, to };
                let mut bucket = match self.buffer.remove(&at) {
                    Some(bucket) => bucket,
                    None => Vec::new(),
                };
                bucket.push(envelope);
                self.buffer.insert(at, bucket);
                proof {
                    assert(self.scheduled(at).drop_last() =~= old(self).scheduled(at));
                    assert forall|other: u32| other != at implies self.scheduled(other) == old(self).scheduled(other) by {}
                    assert forall|t: u32, i: int| 0 <= i < self.scheduled(t).len() implies (
                    #[trigger] self.scheduled(t)[i]).to < self.spec_size() by {
                        if t == at {
                            if i < old(self).scheduled(at).len() {
                                assert(self.scheduled(at)[i] == self.scheduled(at).drop_last()[i]);
                                assert(old(self).scheduled(at)[i].to < old(self).spec_size());
                            }
                        } else {
                            assert(old(self).scheduled(t)[i].to < old(self).spec_size());
                        }
                    }
                    assert forall|t: u32| #[trigger] self.scheduled(t).len() > 0 implies t
                        > self.spec_step() by {
                        if t != at {
                            assert(old(self).scheduled(t).len() > 0);
                        }
                    }
                }
            },
            None => {},
        }
    }

    /// Sends `data` from `from` to every agent, itself included, through the
    /// link layer. `draws[to]` is the outcome of sampling the link to agent
    /// `to`. Every bucket keeps what it held and gains, in ascending order of
    /// the recipients, one copy of `data` for each agent whose link delivers
    /// at that bucket's tick.
    pub fn broadcast(&mut self, from: u32, data: &T, draws: &Vec<Option<i32>>)
        requires
            old(self).wf(),
            draws.len() == old(self).spec_size(),
            forall|to: u32|
                to < old(self).spec_size() ==> (#[trigger] old(self).spec_conn()@.get(
                    from,
                    to,
                    draws[to as int],
                ) matches Some(delay) ==> old(self).spec_step() + delay <= u32::MAX),
        ensures
            final(self).wf(),
            final(self).same_frame(old(self)),
            forall|at: u32|
                grows_by(
                    old(self).scheduled(at),
                    #[trigger] final(self).scheduled(at),
                    from,
                    recipients(
                        old(self).spec_conn()@,
                        from,
                        draws@,
                        at - old(self).spec_step(),
                        old(self).spec_size() as nat,
                    ),
                    *data,
                ),
    {
        proof {
            assert forall|at: u32|
                grows_by(
                    old(self).scheduled(at),
                    #[trigger] self.scheduled(at),
                    from,
                    recipients(self.spec_conn()@, from, draws@, at - self.spec_step(), 0),
                    *data,
                ) by {
                let base = self.scheduled(at);
                assert(base.subrange(0, base.len() as int) =~= base);
            }
        }
        let mut to: u32 = 0;
        while to < self.size
            invariant
                to <= self.spec_size(),
                self.wf(),
                self.same_frame(old(self)),
                draws.len() == self.spec_size(),
                forall|t: u32|
                    t < self.spec_size() ==> (#[trigger] self.spec_conn()@.get(
                        from,
                        t,
                        draws[t as int],
                    ) matches Some(delay) ==> self.spec_step() + delay <= u32::MAX),
                forall|at: u32|
                    grows_by(
                        old(self).scheduled(at),
                        #[trigger] self.scheduled(at),
                        from,
                        recipients(
                            self.spec_conn()@,
                            from,
                            draws@,
                            at - self.spec_step(),
                            to as nat,
                        ),
                        *data,
                    ),
            decreases self.spec_size() - to,
        {
            let ghost before = *self;
            let draw = draws[to as usize];
            assert(self.spec_conn()@.get(from, to, draws[to as int]) matches Some(delay)
                ==> self.spec_step() + delay <= u32::MAX);
            self.send_message(from, to, data, draw);
            proof {
                let conn = self.spec_conn()@;
                assert forall|at: u32|
                    grows_by(
                        old(self).scheduled(at),
                        #[trigger] self.scheduled(at),
                        from,
                        recipients(conn, from, draws@, at - self.spec_step(), (to + 1) as nat),
                        *data,
                    ) by {
                    let base = old(self).scheduled(at);
                    let prev = recipients(conn, from, draws@, at - self.spec_step(), to as nat);
                    assert(grows_by(base, before.scheduled(at), from, prev, *data));
                    match conn.get(from, to, draw) {
                        Some(delay) => {
                            if at == self.spec_step() + delay {
                                let cur = self.scheduled(at);
                                assert(cur.drop_last() == before.scheduled(at));
                                assert(cur.subrange(0, base.len() as int) =~= before.scheduled(
                                    at,
                                ).subrange(0, base.len() as int));
                                assert forall|j: int| 0 <= j < prev.len() + 1 implies is_copy(
                                    #[trigger] cur[base.len() + j],
                                    from,
                                    prev.push(to)[j],
                                    *data,
                                ) by {
                                    if j < prev.len() {
                                        assert(cur[base.len() + j] == cur.drop_last()[base.len()
                                            + j]);
                                    } else {
                                        assert(cur[base.len() + j] == cur.last());
                                    }
                                }
                            }
                        },
                        None => {},
                    }
                }
            }
            to = to + 1;
        }
    }

    /// Takes in a report of final delivery: agent `sent` says that request
    /// `data` has arrived. A request that is addressed to another agent is
    /// refused and changes nothing. Otherwise the delivery is recorded with
    /// the time it took, and the result says whether it was the first report
    /// of this request.
    pub fn check_message(&mut self, sent: u32, data: RequestMessage) -> (checked: Result<
        bool,
        DeliveryError,
    >)
        requires
            old(self).wf(),
            data.to == sent ==> data.start <= old(self).spec_step(),
            data.to == sent && !old(self).spec_stats()@.is_delivered(data.id) ==> old(self).spec_stats()@.delivered < u32::MAX,
        ensures
            final(self).wf(),
            final(self).same_but_stats(old(self)),
            final(self).next_id() == old(self).next_id(),
            checked is Err <==> data.to != sent,
            checked matches Err(error) ==> error == DeliveryError::WrongDestination && final(self).spec_stats()@ == old(self).spec_stats()@,
            checked matches Ok(first) ==> first == !old(self).spec_stats()@.is_delivered(data.id)
                && final(self).spec_stats()@ == old(self).spec_stats()@.delivered(
                data.id,
                (old(self).spec_step() - data.start) as u32,
            ),
    {
        if data.to != sent {
            return Err(DeliveryError::WrongDestination);
        }
        let first = self.stats.delivered(data.id, self.step - data.start);
        proof {
            self.lemma_buffer_kept(old(self));
        }
        Ok(first)
    }

    /// Takes in a report of final delivery and discards it when it is
    /// refused.
    pub fn process_message(&mut self, sent: u32, data: RequestMessage)
        requires
            old(self).wf(),
            data.to == sent ==> data.start <= old(self).spec_step(),
            data.to == sent && !old(self).spec_stats()@.is_delivered(data.id) ==> old(self).spec_stats()@.delivered < u32::MAX,
        ensures
            final(self).wf(),
            final(self).same_but_stats(old(self)),
            final(self).next_id() == old(self).next_id(),
            final(self).spec_stats()@ == (if data.to == sent {
                old(self).spec_stats()@.delivered(
                    data.id,
                    (old(self).spec_step() - data.start) as u32,
                )
            } else {
                old(self).spec_stats()@
            }),
    {
        let _ = self.check_message(sent, data);
    }

    /// Injects a request from `from` to `to`: it gets the next id, is
    /// registered in the statistics, and the returned envelope is the one to
    /// hand to agent `from`.
    pub fn request_message(&mut self, from: u32, to: u32) -> (envelope: Message<T>)
        requires
            old(self).wf(),
            from < old(self).spec_size(),
            old(self).next_id() < u32::MAX,
        ensures
            final(self).wf(),
            final(self).same_but_stats(old(self)),
            envelope == injected::<T>(from, to, old(self).spec_step(), old(self).next_id()),
            final(self).next_id() == old(self).next_id() + 1,
            final(self).spec_stats()@ == old(self).spec_stats()@.requested(old(self).next_id()),
    {
        let id = self.messages;
        let envelope = Message {
            data: MessageType::Request(RequestMessage { from, to, start: self.step, id }),
            from,
            to,
        };
        self.stats.requested(id);
        self.messages = self.messages + 1;
        proof {
            self.lemma_buffer_kept(old(self));
        }
        envelope
    }

    /// Injects a request between two distinct agents picked at random.
    pub fn request_random(&mut self) -> (envelope: Message<T>)
        requires
            old(self).wf(),
            old(self).spec_size() >= 2,
            old(self).next_id() < u32::MAX,
        ensures
            final(self).wf(),
            final(self).same_but_stats(old(self)),
            envelope.from < old(self).spec_size(),
            envelope.to < old(self).spec_size(),
            envelope.from != envelope.to,
            envelope == injected::<T>(
                envelope.from,
                envelope.to,
                old(self).spec_step(),
                old(self).next_id(),
            ),
            final(self).next_id() == old(self).next_id() + 1,
            final(self).spec_stats()@ == old(self).spec_stats()@.requested(old(self).next_id()),
    {
        let from = sample_below(&mut self.rng, self.size);
        let rank = sample_below(&mut self.rng, self.size - 1);
        let to = nth_other(from, rank);
        proof {
            self.lemma_buffer_kept(old(self));
        }
        self.request_message(from, to)
    }

    /// A barrier that awaits one "done" signal from every agent.
    pub fn barrier(&self) -> (barrier: Barrier)
        ensures
            barrier.wf(),
            barrier.expected() == self.spec_size(),
            barrier.arrived() == 0,
    {
        Barrier::new(self.size)
    }

    /// An engine for `size` agents at tick 0, with no link up, nothing
    /// scheduled and nothing injected, and the record of each agent.
    pub fn new(size: u32) -> (made: (Model<T>, Vec<Context>))
        ensures
            made.0.wf(),
            made.0.spec_size() == size,
            made.0.spec_step() == 0,
            made.0.next_id() == 0,
            made.0.spec_conn()@ == ConnView::empty(),
            made.0.spec_stats()@ == StatsView::empty(),
            forall|at: u32| made.0.scheduled(at) == Seq::<Message<T>>::empty(),
            made.1.len() == size,
            forall|i: int|
                0 <= i < size ==> (#[trigger] made.1[i]).spec_id() == i && made.1[i].spec_step()
                    == 0,
    {
        let mut contexts: Vec<Context> = Vec::new();
        let mut id: u32 = 0;
        while id < size
            invariant
                id <= size,
                contexts.len() == id,
                forall|i: int|
                    0 <= i < id ==> (#[trigger] contexts[i]).spec_id() == i
                        && contexts[i].spec_step() == 0,
            decreases size - id,
        {
            contexts.push(Context { id, step: 0 });
            id = id + 1;
        }
        let model = Model {
            size,
            step: 0,
            buffer: HashMap::new(),
            rng: thread_rng(),
            conn: ConnMap::new(),
            messages: 0,
            stats: Stats::new(),
        };
        (model, contexts)
    }

    /// Advances the tick by one and takes the envelopes due at the new tick
    /// out of the buffer, in the order in which they were scheduled.
    fn take_due(&mut self) -> (due: Vec<Message<T>>)
        requires
            old(self).wf(),
            old(self).spec_step() < u32::MAX,
        ensures
            final(self).wf(),
            final(self).spec_size() == old(self).spec_size(),
            final(self).next_id() == old(self).next_id(),
            final(self).spec_conn() == old(self).spec_conn(),
            final(self).spec_stats() == old(self).spec_stats(),
            final(self).spec_step() == old(self).spec_step() + 1,
            due@ == old(self).scheduled(final(self).spec_step()),
            forall|at: u32| #[trigger]
                final(self).scheduled(at) == (if at == final(self).spec_step() {
                    Seq::empty()
                } else {
                    old(self).scheduled(at)
                }),
    {
        let now = self.step + 1;
        self.step = now;
        let due = match self.buffer.remove(&now) {
            Some(bucket) => bucket,
            None => Vec::new(),
        };
        proof {
            assert forall|at: u32| #[trigger]
                self.scheduled(at) == (if at == now {
                    Seq::empty()
                } else {
                    old(self).scheduled(at)
                }) by {}
        }
        due
    }

    /// Takes in what the agents have emitted during the current tick, in
    /// order: a report of final delivery goes to the statistics, protocol
    /// traffic is broadcast through the link layer. `draws[i][to]` is the
    /// outcome of sampling the link from the sender of emission `i` to agent
    /// `to`, for each emission that is protocol traffic.
    pub fn ingest(&mut self, emissions: &Vec<(u32, MessageType<T>)>, draws: &Vec<Vec<Option<i32>>>)
        requires
            old(self).wf(),
            broadcasts_fit(
                old(self).spec_conn()@,
                emissions@,
                draw_rows(draws@),
                old(self).spec_size(),
                old(self).spec_step(),
            ),
            reports_fit(old(self).spec_stats()@, emissions@, old(self).spec_step()),
        ensures
            final(self).wf(),
            final(self).spec_size() == old(self).spec_size(),
            final(self).spec_step() == old(self).spec_step(),
            final(self).next_id() == old(self).next_id(),
            final(self).spec_conn()@ == old(self).spec_conn()@,
            final(self).spec_stats()@ == reported(
                old(self).spec_stats()@,
                emissions@,
                old(self).spec_step(),
                emissions.len() as nat,
            ),
            forall|at: u32|
                extended_by(
                    old(self).scheduled(at),
                    #[trigger] final(self).scheduled(at),
                    arrivals(
                        old(self).spec_conn()@,
                        emissions@,
                        draw_rows(draws@),
                        old(self).spec_size(),
                        at - old(self).spec_step(),
                        emissions.len() as nat,
                    ),
                    emissions@,
                ),
    {
        let ghost conn = self.spec_conn()@;
        let ghost rows = draw_rows(draws@);
        let ghost now = self.spec_step();
        proof {
            assert forall|at: u32|
                extended_by(
                    old(self).scheduled(at),
                    #[trigger] self.scheduled(at),
                    arrivals(conn, emissions@, rows, self.spec_size(), at - now, 0),
                    emissions@,
                ) by {
                let base = self.scheduled(at);
                assert(base.subrange(0, base.len() as int) =~= base);
            }
        }
        let mut i: usize = 0;
        while i < emissions.len()
            invariant
                i <= emissions.len(),
                self.wf(),
                now == self.spec_step(),
                conn == self.spec_conn()@,
                rows == draw_rows(draws@),
                self.spec_size() == old(self).spec_size(),
                self.next_id() == old(self).next_id(),
                broadcasts_fit(conn, emissions@, rows, self.spec_size(), now),
                reports_fit(old(self).spec_stats()@, emissions@, now),
                self.spec_stats()@ == reported(old(self).spec_stats()@, emissions@, now, i as nat),
                forall|at: u32|
                    extended_by(
                        old(self).scheduled(at),
                        #[trigger] self.scheduled(at),
                        arrivals(conn, emissions@, rows, self.spec_size(), at - now, i as nat),
                        emissions@,
                    ),
            decreases emissions.len() - i,
        {
            let ghost before = *self;
            let sender = emissions[i].0;
            assert(emissions@[i as int].1 is Comm ==> rows[i as int].len() == self.spec_size());
            match &emissions[i].1 {
                MessageType::Request(request) => {
                    self.process_message(sender, *request);
                    proof {
                        assert forall|at: u32|
                            extended_by(
                                old(self).scheduled(at),
                                #[trigger] self.scheduled(at),
                                arrivals(
                                    conn,
                                    emissions@,
                                    rows,
                                    self.spec_size(),
                                    at - now,
                                    (i + 1) as nat,
                                ),
                                emissions@,
                            ) by {
                            assert(self.scheduled(at) == before.scheduled(at));
                        }
                    }
                },
                MessageType::Comm(payload) => {
                    let row = &draws[i];
                    assert(row@ == rows[i as int]);
                    self.broadcast(sender, payload, row);
                    proof {
                        assert forall|at: u32|
                            extended_by(
                                old(self).scheduled(at),
                                #[trigger] self.scheduled(at),
                                arrivals(
                                    conn,
                                    emissions@,
                                    rows,
                                    self.spec_size(),
                                    at - now,
                                    (i + 1) as nat,
                                ),
                                emissions@,
                            ) by {
                            lemma_extended_by_broadcast(
                                old(self).scheduled(at),
                                before.scheduled(at),
                                self.scheduled(at),
                                conn,
                                emissions@,
                                rows,
                                self.spec_size(),
                                at - now,
                                i as int,
                            );
                        }
                    }
                },
            }
            i = i + 1;
        }
    }

    /// Hands over the envelopes that are due: they are put into an arbitrary
    /// order and each is counted in the statistics.
    fn release(&mut self, due: Vec<Message<T>>) -> (released: Vec<Message<T>>)
        requires
            old(self).wf(),
            old(self).spec_stats()@.total + due.len() <= u32::MAX,
        ensures
            final(self).wf(),
            final(self).same_but_stats(old(self)),
            final(self).next_id() == old(self).next_id(),
            released@.to_multiset() == due@.to_multiset(),
            released.len() == due.len(),
            final(self).spec_stats()@ == (StatsView {
                total: old(self).spec_stats()@.total + due.len() as nat,
                ..old(self).spec_stats()@
            }),
    {
        let mut released = due;
        shuffle(&mut released, &mut self.rng);
        proof {
            self.lemma_buffer_kept(old(self));
            due@.to_multiset_ensures();
            released@.to_multiset_ensures();
        }
        let mut counted: usize = 0;
        while counted < released.len()
            invariant
                counted <= released.len(),
                released.len() == due.len(),
                self.wf(),
                old(self).wf(),
                self.buffer == old(self).buffer,
                self.spec_size() == old(self).spec_size(),
                self.spec_step() == old(self).spec_step(),
                self.next_id() == old(self).next_id(),
                self.spec_conn()@ == old(self).spec_conn()@,
                old(self).spec_stats()@.total + due.len() <= u32::MAX,
                self.spec_stats()@ == (StatsView {
                    total: old(self).spec_stats()@.total + counted as nat,
                    ..old(self).spec_stats()@
                }),
            decreases released.len() - counted,
        {
            self.stats.on_message();
            proof {
                self.lemma_buffer_kept(old(self));
            }
            counted = counted + 1;
        }
        proof {
            self.lemma_buffer_kept(old(self));
        }
        released
    }

    /// Runs one tick. `barrier` shows that every agent has signalled the end
    /// of its previous tick; `emissions` is what the agents have emitted
    /// since, each with its sender, in the order of arrival; `draws[i][to]`
    /// is the outcome of sampling the link from the sender of emission `i`
    /// to agent `to`, for each emission that is protocol traffic.
    ///
    /// The tick advances by one. The reports of final delivery are recorded
    /// and the protocol traffic is broadcast through the link layer, in the
    /// order of the emissions. The envelopes due at the new tick leave the
    /// buffer, are counted, and come back in an arbitrary order.
    pub fn step(
        &mut self,
        barrier: Barrier,
        emissions: &Vec<(u32, MessageType<T>)>,
        draws: &Vec<Vec<Option<i32>>>,
    ) -> (out: StepOutcome<T>)
        requires
            old(self).wf(),
            barrier.complete(),
            barrier.expected() == old(self).spec_size(),
            old(self).spec_step() < u32::MAX,
            broadcasts_fit(
                old(self).spec_conn()@,
                emissions@,
                draw_rows(draws@),
                old(self).spec_size(),
                (old(self).spec_step() + 1) as u32,
            ),
            reports_fit(old(self).spec_stats()@, emissions@, (old(self).spec_step() + 1) as u32),
            old(self).spec_stats()@.total + old(self).scheduled(
                (old(self).spec_step() + 1) as u32,
            ).len() <= u32::MAX,
        ensures
            final(self).wf(),
            final(self).spec_size() == old(self).spec_size(),
            final(self).next_id() == old(self).next_id(),
            final(self).spec_conn()@ == old(self).spec_conn()@,
            final(self).spec_step() == old(self).spec_step() + 1,
            out.tick == final(self).spec_step(),
            out.deliveries@.to_multiset() == old(self).scheduled(out.tick).to_multiset(),
            forall|i: int|
                0 <= i < out.deliveries.len() ==> (#[trigger] out.deliveries[i]).to < old(self).spec_size(),
            final(self).spec_stats()@ == (StatsView {
                total: old(self).spec_stats()@.total + out.deliveries.len() as nat,
                ..reported(old(self).spec_stats()@, emissions@, out.tick, emissions.len() as nat)
            }),
            forall|at: u32|
                extended_by(
                    if at == out.tick {
                        Seq::empty()
                    } else {
                        old(self).scheduled(at)
                    },
                    #[trigger] final(self).scheduled(at),
                    arrivals(
                        old(self).spec_conn()@,
                        emissions@,
                        draw_rows(draws@),
                        old(self).spec_size(),
                        at - out.tick,
                        emissions.len() as nat,
                    ),
                    emissions@,
                ),
    {
        let due = self.take_due();
        let ghost taken = *self;
        self.ingest(emissions, draws);
        let ghost fed = *self;
        proof {
            lemma_reported_total(
                taken.spec_stats()@,
                emissions@,
                taken.spec_step(),
                emissions.len() as nat,
            );
        }
        let released = self.release(due);
        proof {
            due@.to_multiset_ensures();
            assert forall|i: int| 0 <= i < released.len() implies (#[trigger] released[i]).to
                < old(self).spec_size() by {
                released@.to_multiset_ensures();
                assert(released@.contains(released[i]));
                assert(due@.to_multiset().count(released[i]) > 0);
                assert(due@.contains(released[i]));
            }
            assert forall|at: u32|
                extended_by(
                    if at == taken.spec_step() {
                        Seq::empty()
                    } else {
                        old(self).scheduled(at)
                    },
                    #[trigger] self.scheduled(at),
                    arrivals(
                        old(self).spec_conn()@,
                        emissions@,
                        draw_rows(draws@),
                        old(self).spec_size(),
                        at - taken.spec_step(),
                        emissions.len() as nat,
                    ),
                    emissions@,
                ) by {
                assert(self.scheduled(at) == fed.scheduled(at));
                assert(extended_by(
                    taken.scheduled(at),
                    fed.scheduled(at),
                    arrivals(
                        taken.spec_conn()@,
                        emissions@,
                        draw_rows(draws@),
                        taken.spec_size(),
                        at - taken.spec_step(),
                        emissions.len() as nat,
                    ),
                    emissions@,
                ));
            }
        }
        StepOutcome { tick: self.step, deliveries: released }
    }
}

} // verus!
