use std::time::Duration;
use xf_framed::event_queue::{received_event, EventQueue, EventSender};
use xf_framed::timer::{Timer, TimerAction, TIMER_SAMPLING_CHECK, TIMER_STEP_NANOS};

const MILLI: u128 = 1_000_000;

fn sleeps(duration: u128) -> usize {
    let mut timer = Timer::new(duration);
    let mut action = timer.start();
    let mut count = 0;
    while action == TimerAction::Sleep {
        count += 1;
        action = timer.after_sleep(true);
    }
    assert_eq!(action, TimerAction::Send);
    count
}

#[test]
fn step_is_the_sampling_interval() {
    assert_eq!(TIMER_SAMPLING_CHECK, 50);
    assert_eq!(Duration::from_millis(TIMER_SAMPLING_CHECK).as_nanos(), TIMER_STEP_NANOS);
}

#[test]
fn event_is_due_after_its_duration_and_not_before() {
    assert_eq!(sleeps(0), 0);
    assert_eq!(sleeps(1), 1);
    assert_eq!(sleeps(50 * MILLI), 1);
    assert_eq!(sleeps(50 * MILLI + 1), 2);
    assert_eq!(sleeps(100 * MILLI), 2);
    assert_eq!(sleeps(1000 * MILLI), 20);
}

#[test]
fn stopped_timer_does_not_send() {
    let mut timer = Timer::new(200 * MILLI);
    assert_eq!(timer.start(), TimerAction::Sleep);
    assert_eq!(timer.after_sleep(true), TimerAction::Sleep);
    assert_eq!(timer.after_sleep(false), TimerAction::Stop);
}

#[test]
fn timer_that_is_stopped_on_its_last_sleep_does_not_send() {
    let mut timer = Timer::new(50 * MILLI);
    assert_eq!(timer.start(), TimerAction::Sleep);
    assert_eq!(timer.after_sleep(false), TimerAction::Stop);
}

#[test]
fn events_come_out_in_order() {
    let mut queue: EventQueue<u32> = EventQueue::new();
    assert_eq!(queue.sender().send(1), Ok(()));
    assert_eq!(queue.sender().send(2), Ok(()));
    assert_eq!(queue.receive(), Some(1));
    assert_eq!(queue.receive_event_timeout(Duration::from_millis(10)), Some(2));
    assert_eq!(queue.receive_event_timeout(Duration::from_millis(10)), None);
}

#[test]
fn clones_send_to_the_same_queue() {
    let mut queue: EventQueue<&'static str> = EventQueue::new();
    let other = queue.sender().clone();
    assert_eq!(other.send("from the clone"), Ok(()));
    assert_eq!(queue.receive(), Some("from the clone"));
}

#[test]
fn event_comes_back_when_the_queue_is_gone() {
    let mut queue: EventQueue<u32> = EventQueue::new();
    let other = queue.sender().clone();
    drop(queue);
    assert_eq!(other.send(7), Err(7));
}

#[test]
fn timed_event_reaches_the_queue_when_due() {
    let mut queue: EventQueue<u32> = EventQueue::new();
    let mut timed = queue.sender().send_with_timer(5, 60 * MILLI);
    assert_eq!(timed.timer_id(), 0);
    assert_eq!(timed.start(), TimerAction::Sleep);
    assert_eq!(timed.after_sleep(true), TimerAction::Sleep);
    assert_eq!(timed.after_sleep(true), TimerAction::Send);
    assert_eq!(timed.send(), Ok(()));
    assert_eq!(queue.receive(), Some(5));
}

#[test]
fn event_without_delay_is_due_at_once() {
    let mut queue: EventQueue<u32> = EventQueue::new();
    let timed = queue.sender().send_with_timer(5, 0);
    assert_eq!(timed.start(), TimerAction::Send);
    assert_eq!(timed.send(), Ok(()));
    assert_eq!(queue.receive(), Some(5));
}

#[test]
fn timed_event_comes_back_when_the_queue_is_gone() {
    let mut queue: EventQueue<u32> = EventQueue::new();
    let timed = queue.sender().send_with_timer(8, 0);
    drop(queue);
    assert_eq!(timed.send(), Err(8));
}

#[test]
fn timers_are_numbered_and_waited_for() {
    let mut queue: EventQueue<u32> = EventQueue::new();
    let sender: &mut EventSender<u32> = queue.sender();
    assert!(sender.timers_running());
    for expected in 0..3usize {
        assert_eq!(sender.send_with_timer(0, MILLI).timer_id(), expected);
    }
    assert_eq!(sender.stop_timers(), vec![0, 1, 2]);
    assert!(!sender.timers_running());
    assert!(sender.stop_timers().is_empty());
    assert_eq!(sender.send_with_timer(0, MILLI).timer_id(), 3);
}

#[test]
fn clone_has_timers_of_its_own() {
    let mut queue: EventQueue<u32> = EventQueue::new();
    queue.sender().send_with_timer(0, MILLI);
    queue.sender().stop_timers();
    let mut other = queue.sender().clone();
    assert!(other.timers_running());
    assert_eq!(other.send_with_timer(0, MILLI).timer_id(), 0);
    assert_eq!(other.stop_timers(), vec![0]);
}

#[test]
fn receive_brings_an_event_or_none() {
    let brought: Result<u32, crossbeam_channel::RecvTimeoutError> = Ok(4);
    assert_eq!(received_event(brought), Some(4));
    let late: Result<u32, crossbeam_channel::RecvTimeoutError> =
        Err(crossbeam_channel::RecvTimeoutError::Timeout);
    assert_eq!(received_event(late), None);
}

#[test]
fn each_receive_takes_one_event() {
    let mut queue: EventQueue<u32> = EventQueue::new();
    for event in 0..4 {
        assert_eq!(queue.sender().send(event), Ok(()));
    }
    assert_eq!(queue.receive_event_timeout(Duration::from_millis(1)), Some(0));
    assert_eq!(queue.receive(), Some(1));
    assert_eq!(queue.receive(), Some(2));
    assert_eq!(queue.receive_event_timeout(Duration::from_millis(1)), Some(3));
    assert_eq!(queue.receive_event_timeout(Duration::from_millis(1)), None);
}

#[test]
fn stopping_comes_too_late_for_an_event_that_was_due() {
    let mut timer = Timer::new(100 * MILLI);
    assert_eq!(timer.start(), TimerAction::Sleep);
    assert_eq!(timer.after_sleep(true), TimerAction::Sleep);
    assert_eq!(timer.after_sleep(true), TimerAction::Send);
}
