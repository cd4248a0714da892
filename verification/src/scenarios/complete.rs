//! The complete graph: every agent hears every other, with the same odds.

use crate::model::connections::{ConnMap, ConnView, PROB_ONE};
use crate::model::message::Message;
use crate::model::model::{Context, Model};
use crate::model::stats::StatsView;
use vstd::prelude::*;

verus! {

/// The tick budget of the scenario.
pub const STEPS: u32 = 10000;

/// The delivery probability of every link of the scenario: one in ten, in
/// parts per million.
pub const LINK_PROB: u32 = 100_000;

/// Whether the link from `from` to `to` is as a full mesh wants it: set to
/// `prob` and `delay` when it is `covered`, else as it was in `before`.
pub open spec fn link_meshed(
    before: ConnView,
    after: ConnView,
    from: u32,
    to: u32,
    covered: bool,
    prob: u32,
    delay: i32,
) -> bool {
    if covered {
        after.prob_of(from, to) == prob && after.delay_of(from, to) == delay
    } else {
        after.prob_of(from, to) == before.prob_of(from, to) && after.delay_of(from, to)
            == before.delay_of(from, to)
    }
}

/// Whether the link from `from` to `to` is between two distinct agents below
/// `size`.
pub open spec fn in_mesh(from: u32, to: u32, size: u32) -> bool {
    from != to && from < size && to < size
}

/// Whether `after` is `before` with every link between two distinct agents
/// below `size` set to probability `prob` and delay shift `delay`, and
/// everything else untouched.
pub open spec fn is_full_mesh(
    before: ConnView,
    after: ConnView,
    size: u32,
    prob: u32,
    delay: i32,
) -> bool {
    forall|from: u32, to: u32|
        link_meshed(before, after, from, to, #[trigger] in_mesh(from, to, size), prob, delay)
}

/// Whether the mesh loop has reached the pair of `from` and `to` when it
/// stands at the pair of `first` and `second`.
pub open spec fn reached(from: u32, to: u32, size: u32, first: u32, second: u32) -> bool {
    in_mesh(from, to, size) && (from < first || to < first || (from == first && to < second) || (to
        == first && from < second))
}

/// Sets every link between two distinct agents below `size` to probability
/// `prob`, in parts per million, and delay shift `delay`.
pub fn full_mesh(conn: &mut ConnMap, size: u32, prob: u32, delay: i32)
    requires
        old(conn).wf(),
        prob <= PROB_ONE,
    ensures
        final(conn).wf(),
        is_full_mesh(old(conn)@, final(conn)@, size, prob, delay),
{
    let mut first: u32 = 0;
    while first < size
        invariant
            first <= size,
            prob <= PROB_ONE,
            conn.wf(),
            forall|from: u32, to: u32|
                link_meshed(
                    old(conn)@,
                    conn@,
                    from,
                    to,
                    #[trigger] reached(from, to, size, first, 0),
                    prob,
                    delay,
                ),
        decreases size - first,
    {
        let mut second: u32 = first + 1;
        proof {
            assert forall|from: u32, to: u32|
                link_meshed(
                    old(conn)@,
                    conn@,
                    from,
                    to,
                    #[trigger] reached(from, to, size, first, second),
                    prob,
                    delay,
                ) by {
                assert(reached(from, to, size, first, second) == reached(from, to, size, first, 0));
            }
        }
        while second < size
            invariant
                first < second <= size,
                prob <= PROB_ONE,
                conn.wf(),
                forall|from: u32, to: u32|
                    link_meshed(
                        old(conn)@,
                        conn@,
                        from,
                        to,
                        #[trigger] reached(from, to, size, first, second),
                        prob,
                        delay,
                    ),
            decreases size - second,
        {
            let ghost prev = conn@;
            conn.update_both(first, second, prob, delay);
            proof {
                assert forall|from: u32, to: u32|
                    link_meshed(
                        old(conn)@,
                        conn@,
                        from,
                        to,
                        #[trigger] reached(from, to, size, first, (second + 1) as u32),
                        prob,
                        delay,
                    ) by {
                    assert(link_meshed(
                        old(conn)@,
                        prev,
                        from,
                        to,
                        reached(from, to, size, first, second),
                        prob,
                        delay,
                    ));
                }
            }
            second = second + 1;
        }
        proof {
            assert forall|from: u32, to: u32|
                link_meshed(
                    old(conn)@,
                    conn@,
                    from,
                    to,
                    #[trigger] reached(from, to, size, (first + 1) as u32, 0),
                    prob,
                    delay,
                ) by {
                assert(reached(from, to, size, (first + 1) as u32, 0) == reached(
                    from,
                    to,
                    size,
                    first,
                    second,
                ));
            }
        }
        first = first + 1;
    }
    proof {
        assert forall|from: u32, to: u32|
            link_meshed(old(conn)@, conn@, from, to, #[trigger] in_mesh(from, to, size), prob, delay) by {
            assert(reached(from, to, size, first, 0) == in_mesh(from, to, size));
        }
    }
}

/// An engine for `size` agents in which every link between two distinct
/// agents delivers with probability [`LINK_PROB`] and no delay shift, and
/// the record of each agent.
pub fn init_simple<T: Clone>(size: u32) -> (made: (Model<T>, Vec<Context>))
    ensures
        made.0.wf(),
        made.0.spec_size() == size,
        made.0.spec_step() == 0,
        made.0.next_id() == 0,
        made.0.spec_stats()@ == StatsView::empty(),
        forall|at: u32| made.0.scheduled(at) == Seq::<Message<T>>::empty(),
        is_full_mesh(ConnView::empty(), made.0.spec_conn()@, size, LINK_PROB, 0),
        made.1.len() == size,
        forall|i: int|
            0 <= i < size ==> (#[trigger] made.1[i]).spec_id() == i && made.1[i].spec_step() == 0,
{
    let (mut model, contexts) = Model::new(size);
    full_mesh(model.conn_mut(), size, LINK_PROB, 0);
    (model, contexts)
}

} // verus!
