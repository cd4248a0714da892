use adhoc_sim::model::{Message, MessageType, RequestMessage};
use adhoc_sim::protocols::gossip::GOSSIP_REBROADCAST_PERIOD;
use adhoc_sim::protocols::{gossip_actor, GossipMessage, GossipState};

fn request(id: u32, from: u32, to: u32) -> RequestMessage {
    RequestMessage { from, to, start: 0, id }
}

fn local(request: RequestMessage) -> Option<Message<GossipMessage>> {
    Some(Message { data: MessageType::Request(request), from: request.from, to: request.to })
}

fn heard(from: u32, to: u32, payload: GossipMessage) -> Option<Message<GossipMessage>> {
    Some(Message { data: MessageType::Comm(payload), from, to })
}

#[test]
fn rebroadcast_period_is_100_ticks() {
    assert_eq!(GOSSIP_REBROADCAST_PERIOD, 100);
}

#[test]
fn local_request_waits_for_the_periodic_pass() {
    let mut state = GossipState::new(0, 0);
    assert_eq!(state.my_id(), 0);
    let r = request(3, 0, 2);
    assert!(gossip_actor(&mut state, 0, local(r)).is_empty());
    assert_eq!(state.known(3), Some((GossipMessage::Request(r), 0)));
    assert!(gossip_actor(&mut state, 50, None).is_empty());
    assert!(gossip_actor(&mut state, 100, None).is_empty());
    assert_eq!(state.known(3), Some((GossipMessage::Request(r), 0)));
    assert_eq!(
        gossip_actor(&mut state, 101, None),
        vec![MessageType::Comm(GossipMessage::Request(r))]
    );
    assert_eq!(state.known(3), Some((GossipMessage::Request(r), 101)));
    assert!(gossip_actor(&mut state, 150, None).is_empty());
    assert!(gossip_actor(&mut state, 201, None).is_empty());
    assert_eq!(
        gossip_actor(&mut state, 202, None),
        vec![MessageType::Comm(GossipMessage::Request(r))]
    );
    assert_eq!(state.known(3), Some((GossipMessage::Request(r), 202)));
}

#[test]
fn every_stale_request_is_rebroadcast_once() {
    let mut state = GossipState::new(1, 0);
    let requests: Vec<RequestMessage> = (0..5).map(|id| request(id, 1, 0)).collect();
    for r in &requests {
        assert!(gossip_actor(&mut state, 0, local(*r)).is_empty());
    }
    let mut out = gossip_actor(&mut state, 300, None);
    out.sort_by_key(|emission| match emission {
        MessageType::Comm(GossipMessage::Request(r)) => r.id,
        _ => panic!("only requests are repeated"),
    });
    let expected: Vec<MessageType<GossipMessage>> =
        requests.iter().map(|r| MessageType::Comm(GossipMessage::Request(*r))).collect();
    assert_eq!(out, expected);
    for r in &requests {
        assert_eq!(state.known(r.id), Some((GossipMessage::Request(*r), 300)));
    }
}

#[test]
fn addressee_reports_and_acknowledges() {
    let mut state = GossipState::new(2, 0);
    let r = request(7, 0, 2);
    assert_eq!(
        gossip_actor(&mut state, 60, heard(0, 2, GossipMessage::Request(r))),
        vec![MessageType::Request(r), MessageType::Comm(GossipMessage::Ack(7))]
    );
    assert_eq!(state.known(7), Some((GossipMessage::Ack(7), 60)));
    assert_eq!(
        gossip_actor(&mut state, 75, heard(1, 2, GossipMessage::Request(r))),
        vec![MessageType::Request(r), MessageType::Comm(GossipMessage::Ack(7))]
    );
    assert_eq!(state.known(7), Some((GossipMessage::Ack(7), 75)));
    assert!(gossip_actor(&mut state, 500, None).is_empty());
}

#[test]
fn relay_ignores_an_unknown_request() {
    let mut state = GossipState::new(1, 0);
    let r = request(7, 0, 2);
    assert!(gossip_actor(&mut state, 60, heard(0, 1, GossipMessage::Request(r))).is_empty());
    assert_eq!(state.known(7), None);
    assert!(gossip_actor(&mut state, 500, None).is_empty());
}

#[test]
fn relay_answers_a_request_once_per_tick() {
    let mut state = GossipState::new(1, 0);
    let r = request(7, 0, 2);
    assert_eq!(
        gossip_actor(&mut state, 50, heard(2, 1, GossipMessage::Ack(7))),
        vec![MessageType::Comm(GossipMessage::Ack(7))]
    );
    assert_eq!(state.known(7), Some((GossipMessage::Ack(7), 50)));
    assert_eq!(
        gossip_actor(&mut state, 60, heard(0, 1, GossipMessage::Request(r))),
        vec![MessageType::Comm(GossipMessage::Ack(7))]
    );
    assert_eq!(state.known(7), Some((GossipMessage::Ack(7), 60)));
    assert!(gossip_actor(&mut state, 60, heard(0, 1, GossipMessage::Request(r))).is_empty());
    assert_eq!(
        gossip_actor(&mut state, 61, heard(0, 1, GossipMessage::Request(r))),
        vec![MessageType::Comm(GossipMessage::Ack(7))]
    );
}

#[test]
fn acknowledgement_is_passed_on_once() {
    let mut state = GossipState::new(1, 0);
    assert_eq!(
        gossip_actor(&mut state, 10, heard(2, 1, GossipMessage::Ack(4))),
        vec![MessageType::Comm(GossipMessage::Ack(4))]
    );
    assert!(gossip_actor(&mut state, 10, heard(0, 1, GossipMessage::Ack(4))).is_empty());
    assert!(gossip_actor(&mut state, 900, heard(0, 1, GossipMessage::Ack(4))).is_empty());
    assert_eq!(state.known(4), Some((GossipMessage::Ack(4), 10)));
}

#[test]
fn acknowledgement_stops_the_repetition() {
    let mut state = GossipState::new(0, 0);
    let r = request(3, 0, 2);
    gossip_actor(&mut state, 0, local(r));
    assert_eq!(gossip_actor(&mut state, 101, None).len(), 1);
    assert_eq!(
        gossip_actor(&mut state, 150, heard(2, 0, GossipMessage::Ack(3))),
        vec![MessageType::Comm(GossipMessage::Ack(3))]
    );
    assert_eq!(state.known(3), Some((GossipMessage::Ack(3), 150)));
    for now in [202u32, 1000, 100_000] {
        assert!(gossip_actor(&mut state, now, None).is_empty());
    }
}
