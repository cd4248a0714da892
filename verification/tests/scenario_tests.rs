use adhoc_sim::model::{
    ConnMap, Message, MessageType, Model, RequestMessage, DEVIATION, MIN_DELAY, PROB_ONE,
};
use adhoc_sim::protocols::{
    cbr_actor, dsdv_actor, gossip_actor, CBRMessage, CbrState, DSDVMessage, DsdvState,
    GossipMessage, GossipState,
};
use adhoc_sim::scenarios::{full_mesh, init_simple, send_batch, LINK_PROB, STEPS};
use rand::Rng;
use rand_distr::{Distribution, Normal};
use std::collections::VecDeque;

const WAIT: u32 = 10;

fn sample_link(conn: &ConnMap, from: u32, to: u32, rng: &mut impl Rng) -> Option<i32> {
    if !rng.gen_bool(conn.prob(from, to) as f64 / PROB_ONE as f64) {
        return None;
    }
    let normal = Normal::new(conn.mean_delay(from, to) as f32, DEVIATION as f32).unwrap();
    Some(normal.sample(rng) as i32)
}

struct Agent<S, P> {
    state: S,
    inbox: VecDeque<Message<P>>,
    waited: u32,
}

struct World<S, P: Clone> {
    model: Model<P>,
    agents: Vec<Agent<S, P>>,
    act: fn(&mut S, u32, Option<Message<P>>) -> Vec<MessageType<P>>,
    first: Vec<(u32, MessageType<P>)>,
    released: Vec<(u32, u32, u32)>,
}

impl<S, P: Clone> World<S, P> {
    fn new(
        model: Model<P>,
        states: Vec<S>,
        act: fn(&mut S, u32, Option<Message<P>>) -> Vec<MessageType<P>>,
        first: Vec<(u32, MessageType<P>)>,
    ) -> Self {
        let agents = states
            .into_iter()
            .map(|state| Agent { state, inbox: VecDeque::new(), waited: 0 })
            .collect();
        World { model, agents, act, first, released: Vec::new() }
    }

    fn inject(&mut self, envelope: Message<P>) {
        let at = envelope.from as usize;
        self.agents[at].inbox.push_back(envelope);
    }

    fn request(&mut self, from: u32, to: u32) {
        let envelope = self.model.request_message(from, to);
        self.inject(envelope);
    }

    fn tick(&mut self) {
        let now = self.model.current_step();
        let mut emissions: Vec<(u32, MessageType<P>)> = std::mem::take(&mut self.first);
        for (id, agent) in self.agents.iter_mut().enumerate() {
            loop {
                let event = match agent.inbox.pop_front() {
                    Some(message) => Some(message),
                    None if agent.waited == WAIT => None,
                    None => {
                        agent.waited += 1;
                        break;
                    }
                };
                agent.waited = 0;
                for emission in (self.act)(&mut agent.state, now, event) {
                    emissions.push((id as u32, emission));
                }
            }
        }
        let mut rng = rand::thread_rng();
        let size = self.model.size();
        let draws: Vec<Vec<Option<i32>>> = emissions
            .iter()
            .map(|(from, emission)| match emission {
                MessageType::Comm(_) => (0..size)
                    .map(|to| sample_link(self.model.conn(), *from, to, &mut rng))
                    .collect(),
                MessageType::Request(_) => Vec::new(),
            })
            .collect();
        let mut barrier = self.model.barrier();
        while !barrier.is_complete() {
            barrier.arrive();
        }
        let before = self.model.stats().total();
        let out = self.model.step(barrier, &emissions, &draws);
        assert_eq!(out.tick, now + 1);
        assert_eq!(self.model.current_step(), now + 1);
        assert_eq!(self.model.stats().total(), before + out.deliveries.len() as u32);
        assert_eq!(self.model.pending(out.tick), 0);
        for message in out.deliveries {
            assert!(message.to < size);
            self.released.push((out.tick, message.from, message.to));
            let at = message.to as usize;
            self.agents[at].inbox.push_back(message);
        }
    }

    fn run(&mut self, budget: u32) -> u32 {
        let mut ticks = 0;
        while ticks < budget && !self.model.stats().all_delivered() {
            self.tick();
            ticks += 1;
        }
        ticks
    }
}

fn gossip_world(model: Model<GossipMessage>) -> World<GossipState, GossipMessage> {
    let states = (0..model.size()).map(|id| GossipState::new(id, 0)).collect();
    World::new(model, states, gossip_actor, Vec::new())
}

fn dsdv_world(model: Model<DSDVMessage>) -> World<DsdvState, DSDVMessage> {
    let mut states = Vec::new();
    let mut first = Vec::new();
    for id in 0..model.size() {
        let (state, beat) = DsdvState::new(id, 0);
        states.push(state);
        first.push((id, beat));
    }
    World::new(model, states, dsdv_actor, first)
}

fn cbr_world(model: Model<CBRMessage>) -> World<CbrState, CBRMessage> {
    let mut states = Vec::new();
    let mut first = Vec::new();
    for id in 0..model.size() {
        let (state, beacon) = CbrState::new(id, 0);
        states.push(state);
        first.push((id, beacon));
    }
    World::new(model, states, cbr_actor, first)
}

#[test]
fn init_simple_links_every_pair() {
    assert_eq!(STEPS, 10000);
    assert_eq!(LINK_PROB, 100_000);
    let (model, contexts) = init_simple::<GossipMessage>(6);
    assert_eq!(contexts.len(), 6);
    assert_eq!(model.size(), 6);
    for from in 0..8u32 {
        for to in 0..8u32 {
            let linked = from != to && from < 6 && to < 6;
            assert_eq!(model.conn().prob(from, to), if linked { 100_000 } else { 0 });
            assert_eq!(model.conn().delay(from, to), 0);
        }
    }
}

#[test]
fn full_mesh_leaves_other_links() {
    let mut conn = ConnMap::new();
    conn.update(0, 0, 5, 5);
    conn.update(1, 7, 6, 6);
    full_mesh(&mut conn, 3, PROB_ONE, -4);
    for from in 0..3u32 {
        for to in 0..3u32 {
            if from != to {
                assert_eq!((conn.prob(from, to), conn.delay(from, to)), (PROB_ONE, -4));
            }
        }
    }
    assert_eq!((conn.prob(0, 0), conn.delay(0, 0)), (5, 5));
    assert_eq!((conn.prob(1, 7), conn.delay(1, 7)), (6, 6));
    assert_eq!((conn.prob(1, 1), conn.delay(1, 1)), (0, 0));
    full_mesh(&mut conn, 3, 0, 0);
    assert_eq!(conn.prob(0, 1), 0);
    assert_eq!(conn.prob(1, 7), 6);
}

#[test]
fn send_batch_injects_consecutive_ids() {
    let (mut model, _) = init_simple::<GossipMessage>(5);
    model.request_message(0, 1);
    let envelopes = send_batch(&mut model, 12);
    assert_eq!(envelopes.len(), 12);
    assert_eq!(model.requested(), 13);
    assert_eq!(model.stats().registered(), 13);
    for (i, envelope) in envelopes.iter().enumerate() {
        assert!(envelope.from < 5 && envelope.to < 5);
        assert_ne!(envelope.from, envelope.to);
        assert_eq!(
            envelope.data,
            MessageType::Request(RequestMessage {
                from: envelope.from,
                to: envelope.to,
                start: 0,
                id: i as u32 + 1,
            })
        );
    }
    assert!(send_batch(&mut model, 0).is_empty());
    assert_eq!(model.requested(), 13);
}

#[test]
fn line_of_three_delivers() {
    let (mut model, _) = Model::<GossipMessage>::new(3);
    full_mesh(model.conn_mut(), 3, PROB_ONE, 0);
    let mut world = gossip_world(model);
    world.request(0, 2);
    let ticks = world.run(1000);
    assert!(ticks < 1000);
    let stats = world.model.stats();
    assert!(stats.all_delivered());
    let stat = stats.message(0).unwrap();
    assert!(stat.delivered);
    assert!(stat.steps >= 1);
    assert!(stat.steps >= 100 + MIN_DELAY);
    assert_eq!(stat.steps, world.model.current_step());
}

#[test]
fn partitioned_agents_deliver_nothing() {
    let (model, _) = Model::<GossipMessage>::new(4);
    let mut world = gossip_world(model);
    world.request(0, 3);
    assert_eq!(world.run(1000), 1000);
    assert_eq!(world.model.stats().delivered_count(), 0);
    assert_eq!(world.model.stats().total(), 0);
    assert!(world.released.is_empty());
    assert!(!world.model.stats().all_delivered());
}

#[test]
fn one_way_link_carries_nothing_back() {
    let (mut model, _) = Model::<GossipMessage>::new(2);
    model.conn_mut().update(0, 1, PROB_ONE, 0);
    let mut world = gossip_world(model);
    world.request(0, 1);
    world.request(1, 0);
    for _ in 0..1500 {
        world.tick();
    }
    assert!(!world.released.is_empty());
    assert!(world.released.iter().all(|(_, from, to)| (*from, *to) == (0, 1)));
    assert_eq!(world.model.stats().delivered_count(), 1);
    assert!(world.model.stats().message(0).unwrap().delivered);
    assert!(!world.model.stats().message(1).unwrap().delivered);
}

#[test]
fn gossip() {
    const SIZE: u32 = 10;
    let (mut model, _) = init_simple::<GossipMessage>(SIZE);
    let envelopes = send_batch(&mut model, SIZE);
    let mut world = gossip_world(model);
    for envelope in envelopes {
        world.inject(envelope);
    }
    let ticks = world.run(STEPS);
    let stats = world.model.stats();
    assert_eq!(stats.registered(), SIZE as usize);
    assert!(stats.delivered_count() <= SIZE);
    assert_eq!(stats.all_delivered(), stats.delivered_count() == SIZE);
    assert!(ticks == STEPS || stats.all_delivered());
    assert!(stats.total() >= stats.delivered_count());
    let mut last = 0;
    for (tick, _, _) in &world.released {
        assert!(*tick >= last);
        last = *tick;
    }
}

#[test]
fn duplicates_do_not_inflate_delivered() {
    let (mut model, _) = Model::<GossipMessage>::new(2);
    full_mesh(model.conn_mut(), 2, PROB_ONE, 0);
    let mut world = gossip_world(model);
    world.request(0, 1);
    for _ in 0..2000 {
        world.tick();
    }
    let stats = world.model.stats();
    assert_eq!(stats.delivered_count(), 1);
    assert!(stats.total() >= 1);
    assert!(stats.all_delivered());
    assert_eq!(stats.avg_delivery_time().unwrap().1, 1);
}

#[test]
fn dsdv_routes_along_a_line() {
    let (mut model, _) = Model::<DSDVMessage>::new(3);
    model.conn_mut().update_both(0, 1, PROB_ONE, 0);
    model.conn_mut().update_both(1, 2, PROB_ONE, 0);
    let mut world = dsdv_world(model);
    world.request(0, 2);
    for _ in 0..300 {
        world.tick();
    }
    let route = world.agents[0].state.route_to(2).unwrap();
    assert_eq!(route.next_hop, 1);
    assert!(route.metric >= 2);
    assert!(world.agents[1].state.route_to(0).is_some());
    assert!(world.agents[1].state.route_to(2).is_some());
    world.run(10_000);
    assert!(world.model.stats().all_delivered());
    assert_eq!(world.model.stats().delivered_count(), 1);
    assert!(world.released.iter().all(|(_, from, to)| from.abs_diff(*to) == 1));
}

#[test]
fn cbr_delivers_over_a_toggling_link() {
    let (mut model, _) = Model::<CBRMessage>::new(4);
    model.conn_mut().update_both(0, 1, PROB_ONE, 0);
    model.conn_mut().update_both(2, 3, PROB_ONE, 0);
    let mut world = cbr_world(model);
    world.request(0, 3);
    world.request(3, 1);
    let mut up = false;
    let mut ticks = 0;
    while ticks < 60_000 && !world.model.stats().all_delivered() {
        if ticks % 200 == 0 {
            up = !up;
            world.model.conn_mut().update_both(1, 2, if up { PROB_ONE } else { 0 }, 0);
        }
        world.tick();
        ticks += 1;
    }
    let stats = world.model.stats();
    assert_eq!(stats.delivered_count() as usize, stats.registered());
    assert!(stats.all_delivered());
}

#[test]
fn nothing_is_released_before_it_was_sent() {
    let (mut model, _) = Model::<CBRMessage>::new(3);
    full_mesh(model.conn_mut(), 3, PROB_ONE, -45);
    let mut world = cbr_world(model);
    for _ in 0..9 {
        world.tick();
    }
    assert!(world.released.is_empty());
    for _ in 0..400 {
        world.tick();
    }
    assert!(!world.released.is_empty());
    assert!(world.released.iter().all(|(tick, _, _)| *tick >= 1 + MIN_DELAY));
}
