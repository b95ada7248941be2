use kv_wire::delay::{Delay, DelayPoll};

#[test]
fn pending_before_the_deadline() {
    let delay = Delay { when: 1_000 };
    assert_eq!(delay.poll(0), DelayPoll::Pending { remaining: 1_000 });
    assert_eq!(delay.poll(990), DelayPoll::Pending { remaining: 10 });
    assert_eq!(delay.poll(999), DelayPoll::Pending { remaining: 1 });
}

#[test]
fn ready_from_the_deadline_on() {
    let delay = Delay { when: 1_000 };
    assert_eq!(delay.poll(1_000), DelayPoll::Ready);
    assert_eq!(delay.poll(1_001), DelayPoll::Ready);
    assert_eq!(delay.poll(u64::MAX), DelayPoll::Ready);
}

#[test]
fn a_timer_of_the_remaining_time_ends_the_wait() {
    let delay = Delay::after(500, 10);
    assert_eq!(delay, Delay { when: 510 });
    match delay.poll(503) {
        DelayPoll::Pending { remaining } => {
            assert_eq!(remaining, 7);
            assert_eq!(delay.poll(503 + remaining), DelayPoll::Ready);
        }
        DelayPoll::Ready => panic!("the deadline has not come"),
    }
}

#[test]
fn deadline_saturates() {
    assert_eq!(Delay::after(u64::MAX - 1, 5), Delay { when: u64::MAX });
    assert_eq!(Delay::after(0, 0).poll(0), DelayPoll::Ready);
}

#[test]
fn output_is_done() {
    assert_eq!(Delay::output(), "done");
}
