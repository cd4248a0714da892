use adhoc_sim::model::{
    nth_other, DeliveryError, Message, MessageStat, MessageType, Model, RequestMessage, PROB_ONE,
};
use adhoc_sim::protocols::GossipMessage;

type Engine = Model<GossipMessage>;

fn ack(id: u32) -> MessageType<GossipMessage> {
    MessageType::Comm(GossipMessage::Ack(id))
}

fn complete_barrier(model: &Engine) -> adhoc_sim::model::Barrier {
    let mut barrier = model.barrier();
    while !barrier.is_complete() {
        barrier.arrive();
    }
    barrier
}

fn idle_step(model: &mut Engine) -> Vec<Message<GossipMessage>> {
    let barrier = complete_barrier(model);
    let out = model.step(barrier, &Vec::new(), &Vec::new());
    assert_eq!(out.tick, model.current_step());
    out.deliveries
}

#[test]
fn new_engine_is_at_tick_zero() {
    let (model, contexts) = Engine::new(4);
    assert_eq!(model.size(), 4);
    assert_eq!(model.current_step(), 0);
    assert_eq!(model.requested(), 0);
    assert_eq!(contexts.len(), 4);
    assert_eq!(model.stats().registered(), 0);
    assert_eq!(model.conn().prob(0, 1), 0);
    for at in 0..200u32 {
        assert_eq!(model.pending(at), 0);
    }
}

#[test]
fn request_ids_are_contiguous_from_zero() {
    let (mut model, _) = Engine::new(3);
    for expected in 0..50u32 {
        let from = expected % 3;
        let to = (expected + 1) % 3;
        let envelope = model.request_message(from, to);
        assert_eq!(
            envelope,
            Message {
                data: MessageType::Request(RequestMessage { from, to, start: 0, id: expected }),
                from,
                to,
            }
        );
        assert_eq!(model.requested(), expected + 1);
        assert_eq!(
            model.stats().message(expected),
            Some(MessageStat { delivered: false, steps: 0 })
        );
        assert_eq!(model.stats().registered(), expected as usize + 1);
    }
}

#[test]
fn request_records_the_tick_of_injection() {
    let (mut model, _) = Engine::new(2);
    idle_step(&mut model);
    idle_step(&mut model);
    let envelope = model.request_message(1, 0);
    assert_eq!(
        envelope.data,
        MessageType::Request(RequestMessage { from: 1, to: 0, start: 2, id: 0 })
    );
}

#[test]
fn random_requests_join_distinct_agents() {
    let (mut model, _) = Engine::new(2);
    for expected in 0..200u32 {
        let envelope = model.request_random();
        assert!(envelope.from < 2);
        assert!(envelope.to < 2);
        assert_ne!(envelope.from, envelope.to);
        assert_eq!(
            envelope.data,
            MessageType::Request(RequestMessage {
                from: envelope.from,
                to: envelope.to,
                start: 0,
                id: expected,
            })
        );
    }
    let (mut model, _) = Engine::new(7);
    let mut seen = [[false; 7]; 7];
    for _ in 0..2000 {
        let envelope = model.request_random();
        assert!(envelope.from < 7 && envelope.to < 7);
        assert_ne!(envelope.from, envelope.to);
        seen[envelope.from as usize][envelope.to as usize] = true;
    }
    for from in 0..7 {
        for to in 0..7 {
            assert_eq!(seen[from][to], from != to);
        }
    }
}

#[test]
fn nth_other_skips_the_first_agent() {
    assert_eq!(nth_other(0, 0), 1);
    assert_eq!(nth_other(0, 5), 6);
    assert_eq!(nth_other(3, 0), 0);
    assert_eq!(nth_other(3, 2), 2);
    assert_eq!(nth_other(3, 3), 4);
    assert_eq!(nth_other(3, 4), 5);
    for first in 0..6u32 {
        let others: Vec<u32> = (0..5).map(|rank| nth_other(first, rank)).collect();
        let expected: Vec<u32> = (0..6).filter(|agent| *agent != first).collect();
        assert_eq!(others, expected);
    }
}

#[test]
fn ticks_advance_by_one() {
    let (mut model, _) = Engine::new(1);
    for expected in 1..=30u32 {
        let barrier = complete_barrier(&model);
        let out = model.step(barrier, &Vec::new(), &Vec::new());
        assert_eq!(out.tick, expected);
        assert_eq!(model.current_step(), expected);
        assert!(out.deliveries.is_empty());
    }
}

#[test]
fn send_message_schedules_at_now_plus_delay() {
    let (mut model, _) = Engine::new(3);
    model.conn_mut().update(0, 1, PROB_ONE, 0);
    idle_step(&mut model);
    model.send_message(0, 1, &GossipMessage::Ack(4), Some(37));
    assert_eq!(model.pending(38), 1);
    model.send_message(0, 1, &GossipMessage::Ack(5), Some(-5));
    assert_eq!(model.pending(11), 1);
    model.send_message(0, 1, &GossipMessage::Ack(6), Some(37));
    assert_eq!(model.pending(38), 2);
    assert_eq!(model.current_step(), 1);
    assert_eq!(model.stats().total(), 0);
}

#[test]
fn a_silent_link_schedules_nothing() {
    let (mut model, _) = Engine::new(3);
    model.conn_mut().update(0, 1, PROB_ONE, 0);
    model.send_message(0, 2, &GossipMessage::Ack(4), Some(37));
    model.send_message(1, 0, &GossipMessage::Ack(4), Some(37));
    model.send_message(0, 1, &GossipMessage::Ack(4), None);
    for at in 0..100u32 {
        assert_eq!(model.pending(at), 0);
    }
    model.broadcast(2, &GossipMessage::Ack(1), &vec![Some(20), Some(20), Some(20)]);
    for at in 0..100u32 {
        assert_eq!(model.pending(at), 0);
    }
    for _ in 0..100 {
        assert!(idle_step(&mut model).is_empty());
    }
    assert_eq!(model.stats().total(), 0);
}

#[test]
fn broadcast_reaches_each_linked_agent_once() {
    let (mut model, _) = Engine::new(4);
    for to in 0..4u32 {
        model.conn_mut().update(1, to, PROB_ONE, 0);
    }
    model.conn_mut().update(1, 2, 0, 0);
    model.broadcast(1, &GossipMessage::Ack(8), &vec![Some(15), Some(15), Some(15), None]);
    assert_eq!(model.pending(15), 2);
    let mut released = Vec::new();
    for _ in 0..15 {
        released = idle_step(&mut model);
    }
    assert_eq!(model.current_step(), 15);
    released.sort_by_key(|message| message.to);
    assert_eq!(
        released,
        vec![
            Message { data: ack(8), from: 1, to: 0 },
            Message { data: ack(8), from: 1, to: 1 },
        ]
    );
    assert_eq!(model.stats().total(), 2);
    assert_eq!(model.pending(15), 0);
}

#[test]
fn step_releases_exactly_what_is_due() {
    let (mut model, _) = Engine::new(3);
    model.conn_mut().update_both(0, 1, PROB_ONE, 0);
    model.conn_mut().update_both(0, 2, PROB_ONE, 0);
    let emissions = vec![(0u32, ack(1)), (0u32, ack(2))];
    let draws = vec![vec![Some(50), Some(12), Some(30)], vec![None, Some(29), Some(3)]];
    let barrier = complete_barrier(&model);
    let out = model.step(barrier, &emissions, &draws);
    assert_eq!(out.tick, 1);
    assert!(out.deliveries.is_empty());
    assert_eq!(model.pending(13), 1);
    assert_eq!(model.pending(31), 1);
    assert_eq!(model.pending(30), 1);
    assert_eq!(model.pending(11), 1);
    assert_eq!(model.pending(51), 0);
    let mut log = Vec::new();
    for _ in 0..40 {
        for message in idle_step(&mut model) {
            log.push((model.current_step(), message));
        }
    }
    assert_eq!(
        log,
        vec![
            (11, Message { data: ack(2), from: 0, to: 2 }),
            (13, Message { data: ack(1), from: 0, to: 1 }),
            (30, Message { data: ack(2), from: 0, to: 1 }),
            (31, Message { data: ack(1), from: 0, to: 2 }),
        ]
    );
    assert_eq!(model.stats().total(), 4);
}

#[test]
fn released_envelopes_are_a_rearrangement() {
    let (mut model, _) = Engine::new(2);
    model.conn_mut().update(0, 1, PROB_ONE, 0);
    for id in 0..40u32 {
        model.send_message(0, 1, &GossipMessage::Ack(id), Some(10));
    }
    assert_eq!(model.pending(10), 40);
    let mut released = Vec::new();
    for _ in 0..10 {
        released = idle_step(&mut model);
    }
    assert_eq!(released.len(), 40);
    let mut ids: Vec<u32> = released
        .iter()
        .map(|message| match message.data {
            MessageType::Comm(GossipMessage::Ack(id)) => id,
            _ => panic!("only acknowledgements were sent"),
        })
        .collect();
    ids.sort();
    assert_eq!(ids, (0..40).collect::<Vec<u32>>());
    assert!(released.iter().all(|message| message.from == 0 && message.to == 1));
    assert_eq!(model.stats().total(), 40);
}

#[test]
fn reports_are_recorded_with_their_delay() {
    let (mut model, _) = Engine::new(3);
    let injected = model.request_message(0, 2);
    let request = match injected.data {
        MessageType::Request(request) => request,
        _ => panic!("a request was injected"),
    };
    for _ in 0..6 {
        idle_step(&mut model);
    }
    let emissions = vec![
        (1u32, MessageType::Request(request)),
        (2u32, MessageType::Request(request)),
        (2u32, MessageType::Request(request)),
    ];
    let draws = vec![Vec::new(), Vec::new(), Vec::new()];
    let barrier = complete_barrier(&model);
    let out = model.step(barrier, &emissions, &draws);
    assert_eq!(out.tick, 7);
    assert_eq!(model.stats().delivered_count(), 1);
    assert_eq!(model.stats().message(0), Some(MessageStat { delivered: true, steps: 7 }));
    assert!(model.stats().all_delivered());
    assert_eq!(model.stats().total(), 0);
}

#[test]
fn wrong_destination_is_refused() {
    let (mut model, _) = Engine::new(3);
    model.request_message(0, 2);
    let request = RequestMessage { from: 0, to: 2, start: 0, id: 0 };
    let refused = model.check_message(1, request);
    assert_eq!(refused, Err(DeliveryError::WrongDestination));
    assert_eq!(refused.unwrap_err().message(), "wrong destination id");
    assert_eq!(model.stats().delivered_count(), 0);
    assert_eq!(model.stats().message(0), Some(MessageStat { delivered: false, steps: 0 }));
    model.process_message(0, request);
    assert_eq!(model.stats().delivered_count(), 0);
    assert_eq!(model.check_message(2, request), Ok(true));
    assert_eq!(model.check_message(2, request), Ok(false));
    assert_eq!(model.stats().delivered_count(), 1);
    model.process_message(2, request);
    assert_eq!(model.stats().delivered_count(), 1);
    assert_eq!(model.stats().message(0), Some(MessageStat { delivered: true, steps: 0 }));
}

#[test]
fn ingest_takes_emissions_in_order() {
    let (mut model, _) = Engine::new(2);
    model.conn_mut().update(0, 1, PROB_ONE, 0);
    model.conn_mut().update(1, 0, PROB_ONE, 0);
    let first = RequestMessage { from: 0, to: 1, start: 0, id: 0 };
    let emissions = vec![
        (0u32, ack(1)),
        (1u32, MessageType::Request(first)),
        (1u32, ack(2)),
        (0u32, MessageType::Request(first)),
    ];
    let draws = vec![vec![None, Some(10)], Vec::new(), vec![Some(10), None], Vec::new()];
    model.ingest(&emissions, &draws);
    assert_eq!(model.current_step(), 0);
    assert_eq!(model.pending(10), 2);
    assert_eq!(model.stats().delivered_count(), 1);
    assert_eq!(model.stats().message(0), Some(MessageStat { delivered: true, steps: 0 }));
}

#[test]
fn links_can_change_between_ticks() {
    let (mut model, _) = Engine::new(2);
    model.conn_mut().update_both(0, 1, PROB_ONE, 10);
    assert_eq!(model.conn().mean_delay(0, 1), 60);
    idle_step(&mut model);
    model.conn_mut().update_both(0, 1, 0, 0);
    assert_eq!(model.conn().prob(1, 0), 0);
    assert_eq!(model.current_step(), 1);
}

#[test]
fn release_order_is_not_the_scheduling_order() {
    let mut ordered = 0;
    for _ in 0..3 {
        let (mut model, _) = Engine::new(2);
        model.conn_mut().update(0, 1, PROB_ONE, 0);
        for id in 0..40u32 {
            model.send_message(0, 1, &GossipMessage::Ack(id), Some(10));
        }
        let mut released = Vec::new();
        for _ in 0..10 {
            released = idle_step(&mut model);
        }
        let expected: Vec<Message<GossipMessage>> =
            (0..40).map(|id| Message { data: ack(id), from: 0, to: 1 }).collect();
        if released == expected {
            ordered += 1;
        }
    }
    assert!(ordered < 3);
}
