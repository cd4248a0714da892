//! What every scenario needs: injecting a batch of requests.

use crate::model::message::{Message, MessageType};
use crate::model::model::{injected, Model};
use crate::model::stats::StatsView;
use vstd::prelude::*;

verus! {

/// The statistics after the requests `first`, `first + 1`, ... were
/// registered, `count` of them.
pub open spec fn requested_all(stats: StatsView, first: u32, count: nat) -> StatsView
    decreases count,
{
    if count == 0 {
        stats
    } else {
        requested_all(stats, first, (count - 1) as nat).requested((first + count - 1) as u32)
    }
}

/// Injects `count` requests, each between two distinct agents picked at
/// random. The requests get consecutive ids, starting with the next free
/// one, and the returned envelopes, in the order of injection, are those to
/// hand to the agents they are from.
pub fn send_batch<T: Clone>(model: &mut Model<T>, count: u32) -> (envelopes: Vec<Message<T>>)
    requires
        old(model).wf(),
        count > 0 ==> old(model).spec_size() >= 2,
        old(model).next_id() + count <= u32::MAX,
    ensures
        final(model).wf(),
        final(model).same_but_stats(old(model)),
        final(model).next_id() == old(model).next_id() + count,
        final(model).spec_stats()@ == requested_all(
            old(model).spec_stats()@,
            old(model).next_id(),
            count as nat,
        ),
        envelopes.len() == count,
        forall|i: int|
            0 <= i < count ==> {
                let envelope = #[trigger] envelopes[i];
                &&& envelope.from < old(model).spec_size()
                &&& envelope.to < old(model).spec_size()
                &&& envelope.from != envelope.to
                &&& envelope == injected::<T>(
                    envelope.from,
                    envelope.to,
                    old(model).spec_step(),
                    (old(model).next_id() + i) as u32,
                )
            },
{
    let mut envelopes: Vec<Message<T>> = Vec::new();
    let mut sent: u32 = 0;
    while sent < count
        invariant
            sent <= count,
            model.wf(),
            count > 0 ==> model.spec_size() >= 2,
            old(model).next_id() + count <= u32::MAX,
            model.same_but_stats(old(model)),
            model.next_id() == old(model).next_id() + sent,
            model.spec_stats()@ == requested_all(
                old(model).spec_stats()@,
                old(model).next_id(),
                sent as nat,
            ),
            envelopes.len() == sent,
            forall|i: int|
                0 <= i < sent ==> {
                    let envelope = #[trigger] envelopes[i];
                    &&& envelope.from < old(model).spec_size()
                    &&& envelope.to < old(model).spec_size()
                    &&& envelope.from != envelope.to
                    &&& envelope == injected::<T>(
                        envelope.from,
                        envelope.to,
                        old(model).spec_step(),
                        (old(model).next_id() + i) as u32,
                    )
                },
        decreases count - sent,
    {
        let envelope = model.request_random();
        envelopes.push(envelope);
        sent = sent + 1;
    }
    envelopes
}

} // verus!
