use adhoc_sim::model::{Barrier, Context, Message, MessageType, Model, Shutdown, Wait};
use adhoc_sim::protocols::GossipMessage;

fn ack(id: u32) -> Message<GossipMessage> {
    Message { data: MessageType::Comm(GossipMessage::Ack(id)), from: 1, to: 0 }
}

fn context(id: usize) -> Context {
    let (_, mut contexts) = Model::<GossipMessage>::new(4);
    contexts.swap_remove(id)
}

#[test]
fn contexts_are_numbered() {
    let (model, contexts) = Model::<GossipMessage>::new(5);
    assert_eq!(model.size(), 5);
    assert_eq!(contexts.len(), 5);
    for (i, ctx) in contexts.iter().enumerate() {
        assert_eq!(ctx.id(), i as u32);
        assert_eq!(ctx.current_step(), 0);
    }
    let (_, none) = Model::<GossipMessage>::new(0);
    assert!(none.is_empty());
}

#[test]
fn send_stamps_the_sender() {
    let ctx = context(2);
    let emission = ctx.send(MessageType::Comm(GossipMessage::Ack(9)));
    assert_eq!(emission, (2, MessageType::Comm(GossipMessage::Ack(9))));
}

#[test]
fn next_step_observes_increasing_ticks() {
    let mut ctx = context(1);
    let mut seen = vec![ctx.current_step()];
    for tick in [1u32, 2, 5, 6, 1000] {
        assert_eq!(ctx.next_step(Some(tick)), Ok(tick));
        assert_eq!(ctx.current_step(), tick);
        seen.push(tick);
    }
    assert!(seen.windows(2).all(|pair| pair[0] < pair[1]));
}

#[test]
fn next_step_reports_shutdown() {
    let mut ctx = context(0);
    assert_eq!(ctx.next_step(Some(3)), Ok(3));
    assert_eq!(ctx.next_step(None), Err(Shutdown));
    assert_eq!(ctx.current_step(), 3);
    assert_eq!(ctx.id(), 0);
}

#[test]
fn read_one_suspends_on_an_empty_mailbox() {
    assert_eq!(Context::read_one::<GossipMessage>(None), Wait::Suspend);
    assert_eq!(Context::read_one(Some(ack(4))), Wait::Ready(ack(4)));
    assert_eq!(Context::read::<GossipMessage>(None), Wait::Suspend);
    assert_eq!(Context::read(Some(ack(5))), Wait::Ready(ack(5)));
}

#[test]
fn read_for_expires_after_its_ticks() {
    let mut left = 10u32;
    let mut suspensions = 0;
    loop {
        let (next, rest) = Context::read_for::<GossipMessage>(left, None);
        match next {
            Wait::Suspend => {
                suspensions += 1;
                assert_eq!(rest, left - 1);
                left = rest;
            }
            Wait::Expired => break,
            Wait::Ready(_) => panic!("nothing was in the mailbox"),
        }
    }
    assert_eq!(suspensions, 10);
}

#[test]
fn read_for_returns_the_first_message() {
    assert_eq!(Context::read_for(3, Some(ack(1))), (Wait::Ready(ack(1)), 3));
    assert_eq!(Context::read_for::<GossipMessage>(3, None), (Wait::Suspend, 2));
    assert_eq!(Context::read_for::<GossipMessage>(1, None), (Wait::Suspend, 0));
    assert_eq!(Context::read_for::<GossipMessage>(0, None), (Wait::Expired, 0));
}

#[test]
fn sleep_suspends_once_per_tick() {
    assert_eq!(Context::sleep(0), (false, 0));
    assert_eq!(Context::sleep(1), (true, 0));
    assert_eq!(Context::sleep(7), (true, 6));
    let mut left = 25u32;
    let mut suspensions = 0;
    loop {
        let (again, rest) = Context::sleep(left);
        if !again {
            break;
        }
        suspensions += 1;
        left = rest;
    }
    assert_eq!(suspensions, 25);
}

#[test]
fn barrier_completes_after_one_signal_per_agent() {
    let (model, _) = Model::<GossipMessage>::new(3);
    let mut barrier = model.barrier();
    assert_eq!(barrier.remaining(), 3);
    assert!(!barrier.is_complete());
    barrier.arrive();
    assert!(!barrier.is_complete());
    barrier.arrive();
    assert_eq!(barrier.remaining(), 1);
    assert!(!barrier.is_complete());
    barrier.arrive();
    assert!(barrier.is_complete());
    assert_eq!(barrier.remaining(), 0);
    assert!(Barrier::new(0).is_complete());
}
