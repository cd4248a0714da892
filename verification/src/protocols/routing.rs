//! What the routed protocols share: the payload they carry, the queue of
//! messages waiting for transmission, and the retry slots.

use crate::model::message::RequestMessage;
use crate::walk::{is_walk, walk};
use std::collections::HashMap;
use vstd::prelude::*;

verus! {

broadcast use vstd::std_specs::hash::group_hash_axioms;

/// What a routed protocol carries towards a destination.
#[derive(Debug, Clone, Copy, PartialEq, Eq, Structural)]
pub enum RoutableMessage {
    /// A request on its way to its addressee.
    Request(RequestMessage),
    /// The confirmation that the request with this id has arrived.
    Ack(u32),
}

/// Whether a retry slot that was last sent at `last_sent` is due at tick
/// `now`, with `period` ticks between transmissions.
pub open spec fn is_due(last_sent: i32, now: u32, period: u32) -> bool {
    now - last_sent >= period
}

/// The tick of last transmission that a fresh retry slot starts with: one
/// period before tick 0, so that the slot is due at once.
pub open spec fn long_ago(period: u32) -> i32 {
    (0 - period) as i32
}

/// The retransmissions that are due at tick `now`, for the retry slots taken
/// in the order `order`: each due request, addressed to its destination.
pub open spec fn due_requests(
    slots: Map<u32, (RequestMessage, i32)>,
    order: Seq<u32>,
    now: u32,
    period: u32,
) -> Seq<(RoutableMessage, u32)>
    decreases order.len(),
{
    if order.len() == 0 {
        Seq::empty()
    } else {
        let before = due_requests(slots, order.drop_last(), now, period);
        let slot = slots[order.last()];
        if is_due(slot.1, now, period) {
            before.push((RoutableMessage::Request(slot.0), slot.0.to))
        } else {
            before
        }
    }
}

/// The retry slots after `payload` was transmitted at tick `now`: the slot
/// of a transmitted request, if there is one, records the tick.
pub open spec fn refreshed(
    slots: Map<u32, (RequestMessage, i32)>,
    payload: RoutableMessage,
    now: u32,
) -> Map<u32, (RequestMessage, i32)> {
    match payload {
        RoutableMessage::Request(request) => if slots.contains_key(request.id) {
            slots.insert(request.id, (slots[request.id].0, now as i32))
        } else {
            slots
        },
        RoutableMessage::Ack(_) => slots,
    }
}

/// Whether some entry of the queue carries `payload`.
pub open spec fn has_payload(queue: Seq<(RoutableMessage, u32)>, payload: RoutableMessage) -> bool {
    exists|j: int| 0 <= j < queue.len() && (#[trigger] queue[j]).0 == payload
}

/// The queue without repeated payloads: of the entries that carry the same
/// payload only the first stays, and the order of those that stay is kept.
pub open spec fn first_of_each(queue: Seq<(RoutableMessage, u32)>) -> Seq<(RoutableMessage, u32)>
    decreases queue.len(),
{
    if queue.len() == 0 {
        Seq::empty()
    } else {
        let before = first_of_each(queue.drop_last());
        if has_payload(before, queue.last().0) {
            before
        } else {
            before.push(queue.last())
        }
    }
}

/// De-duplication keeps exactly the payloads of the queue, each once, and
/// takes every entry from the queue.
pub proof fn lemma_first_of_each(queue: Seq<(RoutableMessage, u32)>)
    ensures
        first_of_each(queue).len() <= queue.len(),
        forall|payload: RoutableMessage|
            has_payload(first_of_each(queue), payload) <==> has_payload(queue, payload),
        forall|i: int, j: int|
            0 <= i < j < first_of_each(queue).len() ==> (#[trigger] first_of_each(queue)[i]).0 != (
            #[trigger] first_of_each(queue)[j]).0,
        forall|i: int|
            0 <= i < first_of_each(queue).len() ==> queue.contains(#[trigger] first_of_each(queue)[i]),
    decreases queue.len(),
{
    if queue.len() > 0 {
        let shorter = queue.drop_last();
        let before = first_of_each(shorter);
        let after = first_of_each(queue);
        lemma_first_of_each(shorter);
        assert forall|payload: RoutableMessage| has_payload(after, payload) <==> has_payload(
            queue,
            payload,
        ) by {
            if has_payload(after, payload) {
                let j = choose|j: int| 0 <= j < after.len() && (#[trigger] after[j]).0 == payload;
                if j < before.len() {
                    assert(before[j].0 == payload);
                    assert(has_payload(shorter, payload));
                    let k = choose|k: int|
                        0 <= k < shorter.len() && (#[trigger] shorter[k]).0 == payload;
                    assert(queue[k].0 == payload);
                } else {
                    assert(queue[queue.len() - 1].0 == payload);
                }
            }
            if has_payload(queue, payload) {
                let k = choose|k: int| 0 <= k < queue.len() && (#[trigger] queue[k]).0 == payload;
                if k < shorter.len() {
                    assert(shorter[k].0 == payload);
                    assert(has_payload(shorter, payload));
                    assert(has_payload(before, payload));
                    let j = choose|j: int|
                        0 <= j < before.len() && (#[trigger] before[j]).0 == payload;
                    assert(after[j].0 == payload);
                } else if has_payload(before, payload) {
                } else {
                    assert(after[after.len() - 1].0 == payload);
                }
            }
        }
        assert forall|i: int| 0 <= i < after.len() implies queue.contains(#[trigger] after[i]) by {
            if i < before.len() {
                assert(shorter.contains(before[i]));
                let k = choose|k: int| 0 <= k < shorter.len() && shorter[k] == before[i];
                assert(queue[k] == after[i]);
            } else {
                assert(queue[queue.len() - 1] == after[i]);
            }
        }
    }
}

/// A queue without repeated payloads is left as it is.
pub proof fn lemma_first_of_each_idempotent(queue: Seq<(RoutableMessage, u32)>)
    ensures
        first_of_each(first_of_each(queue)) == first_of_each(queue),
{
    lemma_first_of_each(queue);
    lemma_distinct_kept(first_of_each(queue));
}

/// A queue in which no payload repeats is its own de-duplication.
pub proof fn lemma_distinct_kept(queue: Seq<(RoutableMessage, u32)>)
    requires
        forall|i: int, j: int|
            0 <= i < j < queue.len() ==> (#[trigger] queue[i]).0 != (#[trigger] queue[j]).0,
    ensures
        first_of_each(queue) == queue,
    decreases queue.len(),
{
    if queue.len() > 0 {
        lemma_distinct_kept(queue.drop_last());
        assert(first_of_each(queue) =~= queue);
    }
}

/// Appends to `pending` the retransmissions that are due at tick `now`, and
/// tells the order in which the retry slots were walked.
pub(crate) fn queue_due(
    slots: &HashMap<u32, (RequestMessage, i32)>,
    now: u32,
    period: u32,
    pending: &mut Vec<(RoutableMessage, u32)>,
) -> (order: Ghost<Seq<u32>>)
    ensures
        is_walk(order@, slots@.dom()),
        final(pending)@ == old(pending)@ + due_requests(slots@, order@, now, period),
{
    let keys = walk(slots);
    let mut i: usize = 0;
    proof {
        assert(keys@.take(0) =~= Seq::<u32>::empty());
        assert(pending@ + Seq::<(RoutableMessage, u32)>::empty() =~= pending@);
    }
    while i < keys.len()
        invariant
            i <= keys.len(),
            is_walk(keys@, slots@.dom()),
            pending@ == old(pending)@ + due_requests(slots@, keys@.take(i as int), now, period),
        decreases keys.len() - i,
    {
        let id = keys[i];
        proof {
            assert(keys@.to_set().contains(id));
            assert(keys@.take(i + 1).drop_last() =~= keys@.take(i as int));
        }
        let slot = match slots.get(&id) {
            Some(slot) => *slot,
            None => {
                proof {
                    assert(false);
                }
                return Ghost(keys@);
            },
        };
        if now as i64 - slot.1 as i64 >= period as i64 {
            pending.push((RoutableMessage::Request(slot.0), slot.0.to));
        }
        proof {
            assert(pending@ =~= old(pending)@ + due_requests(
                slots@,
                keys@.take(i + 1),
                now,
                period,
            ));
        }
        i = i + 1;
    }
    proof {
        assert(keys@.take(keys.len() as int) =~= keys@);
    }
    Ghost(keys@)
}

/// Records in the retry slots that `payload` was transmitted at tick `now`.
pub fn refresh(slots: &mut HashMap<u32, (RequestMessage, i32)>, payload: &RoutableMessage, now: u32)
    requires
        now <= i32::MAX,
    ensures
        final(slots)@ == refreshed(old(slots)@, *payload, now),
{
    match payload {
        RoutableMessage::Request(request) => {
            let found = match slots.get(&request.id) {
                Some(slot) => Some(slot.0),
                None => None,
            };
            match found {
                Some(kept) => {
                    slots.insert(request.id, (kept, now as i32));
                },
                None => {},
            }
        },
        RoutableMessage::Ack(_) => {},
    }
}

/// Whether some entry of the queue carries `payload`.
pub fn carries(queue: &Vec<(RoutableMessage, u32)>, payload: &RoutableMessage) -> (found: bool)
    ensures
        found == has_payload(queue@, *payload),
{
    let mut i: usize = 0;
    while i < queue.len()
        invariant
            i <= queue.len(),
            forall|j: int| 0 <= j < i ==> (#[trigger] queue[j]).0 != *payload,
        decreases queue.len() - i,
    {
        if queue[i].0 == *payload {
            return true;
        }
        i = i + 1;
    }
    false
}

/// Removes repeated payloads from the queue: of the entries that carry the
/// same payload only the first stays.
pub fn dedup(pending: &mut Vec<(RoutableMessage, u32)>)
    ensures
        final(pending)@ == first_of_each(old(pending)@),
{
    let mut kept: Vec<(RoutableMessage, u32)> = Vec::new();
    let mut i: usize = 0;
    proof {
        assert(pending@.take(0) =~= Seq::<(RoutableMessage, u32)>::empty());
    }
    while i < pending.len()
        invariant
            i <= pending.len(),
            pending@ == old(pending)@,
            kept@ == first_of_each(pending@.take(i as int)),
        decreases pending.len() - i,
    {
        let entry = pending[i];
        proof {
            assert(pending@.take(i + 1).drop_last() =~= pending@.take(i as int));
        }
        if !carries(&kept, &entry.0) {
            kept.push(entry);
        }
        i = i + 1;
    }
    proof {
        assert(pending@.take(pending.len() as int) =~= pending@);
    }
    *pending = kept;
}

} // verus!
