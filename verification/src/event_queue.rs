//! A queue of events with any number of senders, some of which wait before they send.

use crate::channel::{
    channel_sender, event_in, one_channel, open_channel, send_event, send_outcome, sent_to, taken,
    Inbox, Wait,
};
use crate::timer::{
    action_at, outcome, Timer, TimerAction, NANOS_PER_MILLI, TIMER_SAMPLING_CHECK, TIMER_STEP_NANOS,
};
use crossbeam_channel::{Receiver, Sender};
use std::time::Duration;
use vstd::prelude::*;

verus! {

/// The event that a receive brought, if it brought one.
pub fn received_event<E, F>(received: Result<E, F>) -> (event: Option<E>)
    ensures
        event == event_in(received),
        received matches Ok(e) ==> event == Some(e),
        received is Err ==> event is None,
{
    match received {
        Ok(event) => Some(event),
        Err(_) => None,
    }
}

/// A queue of events.
#[verifier::reject_recursive_types(E)]
pub struct EventQueue<E> {
    inbox: Inbox<E>,
    event_sender: EventSender<E>,
}

/// Sends events to an [`EventQueue`], at once or after a while.
#[verifier::reject_recursive_types(E)]
pub struct EventSender<E> {
    sender: Sender<E>,
    timer_registry: Vec<usize>,
    timers_running: bool,
    last_timer_id: usize,
}

/// An event that waits for its time.
#[verifier::reject_recursive_types(E)]
pub struct TimedEvent<E> {
    sender: Sender<E>,
    timer_id: usize,
    timer: Timer,
    event: E,
}

impl<E> EventQueue<E> where E: Send + 'static {
    /// The half of the channel from which the events come.
    pub closed spec fn source(self) -> Receiver<E> {
        self.inbox.source()
    }

    /// Every wait for an event at this queue so far, with the event that it took out.
    pub closed spec fn waits(self) -> Seq<Wait<E>> {
        self.inbox.waits()
    }

    /// The events that were taken out of this queue so far, in the order in which they came.
    pub open spec fn received(self) -> Seq<E> {
        taken(self.waits())
    }

    /// The sender that belongs to the queue.
    pub closed spec fn own_sender(self) -> EventSender<E> {
        self.event_sender
    }

    /// Whether the queue's own sender sends to the queue. It does, unless it was replaced through
    /// [`EventQueue::sender`].
    pub open spec fn connected(self) -> bool {
        one_channel(self.own_sender().target(), self.source())
    }

    /// Creates a new event queue for generic incoming events.
    pub fn new() -> (queue: EventQueue<E>)
        ensures
            queue.connected(),
            queue.waits() == Seq::<Wait<E>>::empty(),
            queue.own_sender().wf(),
            queue.own_sender().is_fresh(),
            one_channel(queue.own_sender().target(), queue.source()),
            queue.received() == Seq::<E>::empty(),
            queue.own_sender().timers() == Seq::<usize>::empty(),
            queue.own_sender().next_timer_id() == 0,
            queue.own_sender().running(),
    {
        let (sender, inbox) = open_channel();
        EventQueue { inbox, event_sender: EventSender::new(sender) }
    }

    /// Returns the internal sender reference to this queue.
    /// This reference can be safety cloned and shared to other threads in order to make several
    /// senders to the same queue.
    pub fn sender(&mut self) -> (sender: &mut EventSender<E>)
        ensures
            *sender == old(self).own_sender(),
            final(self).own_sender() == *final(sender),
            final(self).source() == old(self).source(),
            final(self).waits() == old(self).waits(),
    {
        &mut self.event_sender
    }

    /// Blocks the current thread until an event is received by this queue.
    /// An event comes back as long as the queue has its own sender: `None` says that no sender is
    /// left. What comes back is all that leaves the queue, and was sent to it.
    pub fn receive(&mut self) -> (event: Option<E>)
        ensures
            final(self).waits() == old(self).waits().push((Wait { timeout: None, event })),
            final(self).received() == match event {
                Some(e) => old(self).received().push(e),
                None => old(self).received(),
            },
            old(self).connected() ==> event is Some,
            one_channel(old(self).own_sender().target(), old(self).source()) ==> event is Some,
            event matches Some(e) ==> sent_to(old(self).source(), e),
            final(self).source() == old(self).source(),
            final(self).own_sender() == old(self).own_sender(),
    {
        let received = self.inbox.channel_recv(&self.event_sender.sender);
        assert(self.waits().drop_last() =~= old(self).waits());
        received_event(received)
    }

    /// Blocks the current thread until an event is received by this queue or timeout is exceeded.
    /// If timeout is reached a None is returned, otherwise the event is returned. What comes back
    /// is all that leaves the queue, and was sent to it.
    pub fn receive_event_timeout(&mut self, timeout: Duration) -> (event: Option<E>)
        ensures
            final(self).waits() == old(self).waits().push(
                (Wait { timeout: Some(timeout), event }),
            ),
            final(self).received() == match event {
                Some(e) => old(self).received().push(e),
                None => old(self).received(),
            },
            event matches Some(e) ==> sent_to(old(self).source(), e),
            final(self).source() == old(self).source(),
            final(self).own_sender() == old(self).own_sender(),
    {
        let received = self.inbox.channel_recv_timeout(timeout);
        assert(self.waits().drop_last() =~= old(self).waits());
        received_event(received)
    }
}

impl<E> EventSender<E> {
    /// The half of the channel into which the events go.
    pub closed spec fn target(self) -> Sender<E> {
        self.sender
    }

    /// The timers that were started and not yet waited for, oldest first.
    pub closed spec fn timers(self) -> Seq<usize> {
        self.timer_registry@
    }

    /// Whether the timers of this sender go on.
    pub closed spec fn running(self) -> bool {
        self.timers_running
    }

    /// The number that the next timer gets.
    pub closed spec fn next_timer_id(self) -> nat {
        self.last_timer_id as nat
    }

    /// No two timers have the same number, and the next one gets a number of its own.
    pub open spec fn wf(self) -> bool {
        &&& forall|i: int, j: int|
            0 <= i < j < self.timers().len() ==> self.timers()[i] < self.timers()[j]
        &&& forall|i: int|
            0 <= i < self.timers().len() ==> (#[trigger] self.timers()[i]) < self.next_timer_id()
    }

    /// No timer was ever started.
    pub open spec fn is_fresh(self) -> bool {
        &&& self.timers() == Seq::<usize>::empty()
        &&& self.next_timer_id() == 0
        &&& self.running()
    }
}

impl<E> EventSender<E> where E: Send + 'static {
    fn new(sender: Sender<E>) -> (event_sender: EventSender<E>)
        ensures
            event_sender.wf(),
            event_sender.is_fresh(),
            event_sender.target() == sender,
            event_sender.timers() == Seq::<usize>::empty(),
            event_sender.next_timer_id() == 0,
            event_sender.running(),
    {
        EventSender { sender, timer_registry: Vec::new(), timers_running: true, last_timer_id: 0 }
    }

    /// Send instantly an event to the event queue. If the queue is gone, the event comes back.
    pub fn send(&self, event: E) -> (result: Result<(), E>)
        ensures
            send_outcome(self.target(), event, result),
            result matches Err(unsent) ==> unsent == event,
    {
        send_event(&self.sender, event)
    }

    /// Send a timed event to the [EventQueue].
    /// The event only will be sent after the specific duration, in nanoseconds,
    /// never before, even it the [EventSender] is dropped.
    ///
    /// The event comes back with its timer. Whoever runs the timer sleeps as it says, and sends the
    /// event when it is due.
    pub fn send_with_timer(&mut self, event: E, duration: u128) -> (timed: TimedEvent<E>)
        requires
            old(self).wf(),
            old(self).next_timer_id() < usize::MAX,
        ensures
            timed.event() == event,
            timed.target() == old(self).target(),
            timed.id() == old(self).next_timer_id(),
            timed.elapsed() == 0,
            timed.duration() == duration,
            !timed.stopped(),
            final(self).wf(),
            final(self).timers() == old(self).timers().push(old(self).next_timer_id() as usize),
            final(self).next_timer_id() == old(self).next_timer_id() + 1,
            final(self).target() == old(self).target(),
            final(self).running() == old(self).running(),
    {
        let sender = channel_sender(&self.sender);
        let timer_id: usize = self.last_timer_id;
        self.timer_registry.push(timer_id);
        self.last_timer_id = self.last_timer_id + 1;
        proof {
            let timers = old(self).timers();
            assert(self.timers() =~= timers.push(timer_id));
            assert forall|i: int| 0 <= i < self.timers().len() implies (
            #[trigger] self.timers()[i]) < self.next_timer_id() by {
                assert(i < timers.len() ==> self.timers()[i] == timers[i]);
            }
            assert forall|i: int, j: int| 0 <= i < j < self.timers().len() implies self.timers()[i]
                < self.timers()[j] by {
                assert(self.timers()[i] == timers[i]);
                assert(j < timers.len() ==> self.timers()[j] == timers[j]);
            }
        }
        TimedEvent { sender, timer_id, timer: Timer::new(duration), event }
    }
}

impl<E> EventSender<E> {
    /// Stops the timers, and hands out the numbers of those that have to be waited for.
    pub fn stop_timers(&mut self) -> (waiting: Vec<usize>)
        requires
            old(self).wf(),
        ensures
            waiting@ == old(self).timers(),
            final(self).wf(),
            final(self).timers() == Seq::<usize>::empty(),
            !final(self).running(),
            final(self).next_timer_id() == old(self).next_timer_id(),
            final(self).target() == old(self).target(),
    {
        self.timers_running = false;
        let mut waiting: Vec<usize> = Vec::new();
        waiting.append(&mut self.timer_registry);
        assert(waiting@ =~= old(self).timers());
        waiting
    }

    /// Tells whether the timers of this sender go on.
    pub fn timers_running(&self) -> (running: bool)
        ensures
            running == self.running(),
    {
        self.timers_running
    }
}

impl<E> Clone for EventSender<E> {
    /// Makes one more sender to the same queue. It has no timers.
    fn clone(&self) -> (other: Self)
        ensures
            other.wf(),
            other.is_fresh(),
            other.target() == self.target(),
            other.timers() == Seq::<usize>::empty(),
            other.next_timer_id() == 0,
            other.running(),
    {
        EventSender {
            sender: channel_sender(&self.sender),
            timer_registry: Vec::new(),
            timers_running: true,
            last_timer_id: 0,
        }
    }
}

impl<E> TimedEvent<E> {
    /// The half of the channel into which the event goes.
    pub closed spec fn target(self) -> Sender<E> {
        self.sender
    }

    /// The number of the timer.
    pub closed spec fn id(self) -> nat {
        self.timer_id as nat
    }

    /// The event.
    pub closed spec fn event(self) -> E {
        self.event
    }

    /// The nanoseconds that have passed.
    pub closed spec fn elapsed(self) -> nat {
        self.timer.elapsed()
    }

    /// The nanoseconds that have to pass.
    pub closed spec fn duration(self) -> nat {
        self.timer.duration()
    }

    /// Whether the timer has found itself stopped. The event is then never sent.
    pub closed spec fn stopped(self) -> bool {
        self.timer.stopped()
    }

    /// The number of the timer.
    pub fn timer_id(&self) -> (id: usize)
        ensures
            id == self.id(),
    {
        self.timer_id
    }

    /// What to do before the first sleep.
    pub fn start(&self) -> (action: TimerAction)
        requires
            !self.stopped(),
        ensures
            action == action_at(self.elapsed(), self.duration()),
            action == outcome(self.elapsed(), self.duration(), Seq::empty()),
            action == if self.elapsed() < self.duration() {
                TimerAction::Sleep
            } else {
                TimerAction::Send
            },
    {
        self.timer.start()
    }

    /// What to do after a sleep. `running` tells whether the sender's timers still go on.
    pub fn after_sleep(&mut self, running: bool) -> (action: TimerAction)
        requires
            !old(self).stopped(),
            old(self).elapsed() < old(self).duration(),
            old(self).duration() + TIMER_STEP_NANOS <= u128::MAX,
        ensures
            final(self).elapsed() == old(self).elapsed() + TIMER_SAMPLING_CHECK * NANOS_PER_MILLI,
            final(self).duration() == old(self).duration(),
            final(self).id() == old(self).id(),
            final(self).event() == old(self).event(),
            final(self).target() == old(self).target(),
            final(self).stopped() == !running,
            action == (if running {
                action_at(final(self).elapsed(), final(self).duration())
            } else {
                TimerAction::Stop
            }),
            final(self).elapsed() == old(self).elapsed() + 50_000_000,
            action == outcome(old(self).elapsed(), old(self).duration(), seq![running]),
            action is Stop <==> !running,
            action is Send <==> running && old(self).elapsed() + 50_000_000 >= old(
                self,
            ).duration(),
    {
        self.timer.after_sleep(running)
    }

    /// Sends the event, which has to be due and not stopped. If the queue is gone, the event comes
    /// back.
    pub fn send(self) -> (result: Result<(), E>)
        requires
            !self.stopped(),
            self.elapsed() >= self.duration(),
        ensures
            send_outcome(self.target(), self.event(), result),
            result matches Err(unsent) ==> unsent == self.event(),
    {
        send_event(&self.sender, self.event)
    }
}

/// A receive gives back the event that it brought, whatever the event, and nothing if it failed.
pub proof fn law_received_event_comes_back<E, F>(received: Result<E, F>, event: Option<E>)
    requires
        call_ensures(received_event::<E, F>, (received,), event),
    ensures
        event is Some <==> received is Ok,
        event matches Some(e) ==> received == Ok::<E, F>(e),
{
}

/// The events that were taken out of a queue are those that its waits brought: a wait that brings
/// one puts it behind the others, and one that brings none changes nothing.
pub proof fn law_each_wait_adds_what_it_brought<E>(waits: Seq<Wait<E>>, wait: Wait<E>)
    ensures
        taken(Seq::<Wait<E>>::empty()) == Seq::<E>::empty(),
        taken(waits.push(wait)) == match wait.event {
            Some(event) => taken(waits).push(event),
            None => taken(waits),
        },
{
    assert(waits.push(wait).drop_last() =~= waits);
}

/// The timers of a sender have numbers of their own, and the next timer gets one that none of them
/// has. A sender that never started a timer has none.
pub proof fn law_timers_have_numbers_of_their_own<E>(sender: EventSender<E>)
    ensures
        sender.wf() ==> sender.timers().no_duplicates(),
        sender.wf() && sender.next_timer_id() <= usize::MAX ==> !sender.timers().contains(
            sender.next_timer_id() as usize,
        ),
        sender.is_fresh() <==> sender.timers().len() == 0 && sender.next_timer_id() == 0
            && sender.running(),
{
    if sender.timers().len() == 0 {
        assert(sender.timers() =~= Seq::empty());
    }
}

/// A timed event that just got its timer waits before anything else if it has a duration, and is
/// sent at once if it has none.
pub proof fn law_timed_event_waits_out_its_duration<E>(timed: TimedEvent<E>, action: TimerAction)
    requires
        call_ensures(TimedEvent::<E>::start, (&timed,), action),
    ensures
        action is Sleep <==> timed.elapsed() < timed.duration(),
        action is Send <==> timed.elapsed() >= timed.duration(),
        !(action is Stop),
{
}

} // verus!
