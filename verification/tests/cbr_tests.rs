use adhoc_sim::model::{Message, MessageType, RequestMessage};
use adhoc_sim::protocols::cbr::{CBR_BEACON_PERIOD, CBR_DROP_TIMEOUT, CBR_RETRY_PERIOD};
use adhoc_sim::protocols::{cbr_actor, CBRMessage, CbrState, RoutableMessage};

fn heard(payload: CBRMessage) -> Option<Message<CBRMessage>> {
    Some(Message { data: MessageType::Comm(payload), from: 9, to: 9 })
}

fn flight(payload: RoutableMessage, dst: u32, min_hint: u32, origin: u32) -> MessageType<CBRMessage> {
    MessageType::Comm(CBRMessage::RoutingRequest((payload, dst, min_hint, origin)))
}

fn in_flight(payload: RoutableMessage, dst: u32, min_hint: u32, origin: u32) -> Option<Message<CBRMessage>> {
    heard(CBRMessage::RoutingRequest((payload, dst, min_hint, origin)))
}

#[test]
fn cbr_periods() {
    assert_eq!(CBR_BEACON_PERIOD, 100);
    assert_eq!(CBR_RETRY_PERIOD, 5000);
    assert_eq!(CBR_DROP_TIMEOUT, 1000);
}

#[test]
fn agent_starts_with_a_beacon() {
    let (state, first) = CbrState::new(3, 12);
    assert_eq!(state.my_id(), 3);
    assert_eq!(first, MessageType::Comm(CBRMessage::Beacon(3)));
    assert_eq!(state.hint(3), Some(12));
    assert_eq!(state.hint(0), None);
}

#[test]
fn beacon_refreshes_the_hint() {
    let (mut state, _) = CbrState::new(0, 0);
    assert!(cbr_actor(&mut state, 40, heard(CBRMessage::Beacon(2))).is_empty());
    assert_eq!(state.hint(2), Some(40));
    assert!(cbr_actor(&mut state, 90, heard(CBRMessage::Beacon(2))).is_empty());
    assert_eq!(state.hint(2), Some(90));
}

#[test]
fn beacon_is_sent_every_period() {
    let (mut state, _) = CbrState::new(0, 0);
    assert!(cbr_actor(&mut state, 99, None).is_empty());
    assert_eq!(cbr_actor(&mut state, 100, None), vec![MessageType::Comm(CBRMessage::Beacon(0))]);
    assert!(cbr_actor(&mut state, 199, None).is_empty());
    assert_eq!(cbr_actor(&mut state, 230, None), vec![MessageType::Comm(CBRMessage::Beacon(0))]);
    assert!(cbr_actor(&mut state, 329, None).is_empty());
    assert_eq!(cbr_actor(&mut state, 330, None).len(), 1);
}

#[test]
fn request_is_flooded_with_the_hint_age() {
    let (mut state, _) = CbrState::new(0, 0);
    let r = RequestMessage { from: 0, to: 2, start: 5, id: 1 };
    let event = Some(Message { data: MessageType::Request(r), from: 0, to: 2 });
    assert_eq!(
        cbr_actor(&mut state, 5, event),
        vec![flight(RoutableMessage::Request(r), 2, u32::MAX, 5)]
    );
    assert_eq!(state.last_sent(1), Some(5));
    assert!(cbr_actor(&mut state, 50, heard(CBRMessage::Beacon(2))).is_empty());
    assert!(cbr_actor(&mut state, 5004, None).iter().all(|emission| matches!(
        emission,
        MessageType::Comm(CBRMessage::Beacon(_))
    )));
    let again = cbr_actor(&mut state, 5005, None);
    assert_eq!(again[0], flight(RoutableMessage::Request(r), 2, 4955, 5005));
    assert_eq!(state.last_sent(1), Some(5005));
}

#[test]
fn cbr_addressee_reports_and_acknowledges() {
    let (mut state, _) = CbrState::new(2, 0);
    let r = RequestMessage { from: 0, to: 2, start: 5, id: 1 };
    let out = cbr_actor(&mut state, 60, in_flight(RoutableMessage::Request(r), 2, 3, 5));
    assert_eq!(
        out,
        vec![MessageType::Request(r), flight(RoutableMessage::Ack(1), 0, u32::MAX, 60)]
    );
}

#[test]
fn cbr_acknowledgement_frees_the_retry_slot() {
    let (mut state, _) = CbrState::new(0, 0);
    let r = RequestMessage { from: 0, to: 2, start: 5, id: 1 };
    let event = Some(Message { data: MessageType::Request(r), from: 0, to: 2 });
    cbr_actor(&mut state, 5, event);
    assert!(cbr_actor(&mut state, 80, in_flight(RoutableMessage::Ack(1), 0, 0, 70)).is_empty());
    assert_eq!(state.last_sent(1), None);
    assert!(cbr_actor(&mut state, 6000, None).iter().all(|emission| matches!(
        emission,
        MessageType::Comm(CBRMessage::Beacon(_))
    )));
}

#[test]
fn relay_passes_on_without_a_hint() {
    let (mut state, _) = CbrState::new(1, 0);
    let r = RequestMessage { from: 0, to: 2, start: 5, id: 1 };
    let out = cbr_actor(&mut state, 60, in_flight(RoutableMessage::Request(r), 2, 0, 5));
    assert_eq!(out, vec![flight(RoutableMessage::Request(r), 2, u32::MAX, 60)]);
    assert_eq!(state.last_sent(1), None);
}

#[test]
fn relay_passes_on_when_at_least_as_fresh() {
    let (mut state, _) = CbrState::new(1, 0);
    cbr_actor(&mut state, 40, heard(CBRMessage::Beacon(2)));
    let r = RequestMessage { from: 0, to: 2, start: 5, id: 1 };
    let staler = cbr_actor(&mut state, 60, in_flight(RoutableMessage::Request(r), 2, 19, 5));
    assert!(staler.is_empty());
    let equal = cbr_actor(&mut state, 60, in_flight(RoutableMessage::Request(r), 2, 20, 5));
    assert_eq!(equal, vec![flight(RoutableMessage::Request(r), 2, 20, 60)]);
    let fresher = cbr_actor(&mut state, 61, in_flight(RoutableMessage::Request(r), 2, 500, 5));
    assert_eq!(fresher, vec![flight(RoutableMessage::Request(r), 2, 21, 61)]);
}

#[test]
fn relay_drops_after_the_timeout() {
    let (mut state, _) = CbrState::new(1, 0);
    let r = RequestMessage { from: 0, to: 2, start: 5, id: 1 };
    let kept = cbr_actor(&mut state, 1005, in_flight(RoutableMessage::Request(r), 2, 0, 5));
    assert_eq!(kept.len(), 2);
    assert_eq!(kept[0], flight(RoutableMessage::Request(r), 2, u32::MAX, 1005));
    let dropped = cbr_actor(&mut state, 1006, in_flight(RoutableMessage::Request(r), 2, 0, 5));
    assert!(dropped.is_empty());
}

#[test]
fn repeated_payloads_are_flooded_once() {
    let (mut state, _) = CbrState::new(0, 0);
    let r = RequestMessage { from: 0, to: 0, start: 5, id: 1 };
    let event = Some(Message { data: MessageType::Request(r), from: 0, to: 0 });
    cbr_actor(&mut state, 5, event);
    let out = cbr_actor(&mut state, 5005, in_flight(RoutableMessage::Request(r), 7, 0, 5000));
    let requests = out
        .iter()
        .filter(|emission| matches!(
            emission,
            MessageType::Comm(CBRMessage::RoutingRequest((RoutableMessage::Request(_), _, _, _)))
        ))
        .count();
    assert_eq!(requests, 1);
    assert_eq!(out[0], flight(RoutableMessage::Request(r), 7, u32::MAX, 5005));
}
