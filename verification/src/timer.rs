//! When a timed event is due.

use vstd::prelude::*;

verus! {

/// Milliseconds between two looks of a timer at whether it should go on.
pub const TIMER_SAMPLING_CHECK: u64 = 50;

/// Nanoseconds in a millisecond.
pub const NANOS_PER_MILLI: u128 = 1_000_000;

/// Nanoseconds between two looks of a timer at whether it should go on.
pub const TIMER_STEP_NANOS: u128 = 50_000_000;

/// What a timer does next.
#[derive(Clone, Copy, Debug, PartialEq, Eq, Structural)]
pub enum TimerAction {
    /// Sleep for [`TIMER_SAMPLING_CHECK`] milliseconds, and then look whether to go on.
    Sleep,
    /// End without sending the event.
    Stop,
    /// Send the event.
    Send,
}

/// A span of time that passes in steps.
pub struct Timer {
    time_acc: u128,
    duration: u128,
    stopped: bool,
}

/// What a timer does next once `elapsed` nanoseconds have passed of `duration`.
pub open spec fn action_at(elapsed: nat, duration: nat) -> TimerAction {
    if elapsed < duration {
        TimerAction::Sleep
    } else {
        TimerAction::Send
    }
}

impl Timer {
    /// The nanoseconds that have passed.
    pub closed spec fn elapsed(self) -> nat {
        self.time_acc as nat
    }

    /// The nanoseconds that have to pass.
    pub closed spec fn duration(self) -> nat {
        self.duration as nat
    }

    /// Whether the timer has found itself stopped. It then does nothing more.
    pub closed spec fn stopped(self) -> bool {
        self.stopped
    }

    /// Starts a timer that is due after `duration` nanoseconds.
    pub fn new(duration: u128) -> (timer: Timer)
        ensures
            timer.elapsed() == 0,
            timer.duration() == duration,
            !timer.stopped(),
    {
        Timer { time_acc: 0, duration, stopped: false }
    }

    /// What to do before the first sleep.
    pub fn start(&self) -> (action: TimerAction)
        requires
            !self.stopped(),
        ensures
            action == action_at(self.elapsed(), self.duration()),
            action == outcome(self.elapsed(), self.duration(), Seq::empty()),
            action == if self.elapsed() < self.duration() {
                TimerAction::Sleep
            } else {
                TimerAction::Send
            },
    {
        if self.time_acc < self.duration {
            TimerAction::Sleep
        } else {
            TimerAction::Send
        }
    }

    /// What to do after a sleep. `running` is what the timer finds on waking up.
    pub fn after_sleep(&mut self, running: bool) -> (action: TimerAction)
        requires
            !old(self).stopped(),
            old(self).elapsed() < old(self).duration(),
            old(self).duration() + TIMER_STEP_NANOS <= u128::MAX,
        ensures
            final(self).elapsed() == old(self).elapsed() + TIMER_SAMPLING_CHECK * NANOS_PER_MILLI,
            final(self).duration() == old(self).duration(),
            final(self).stopped() == !running,
            action == (if running {
                action_at(final(self).elapsed(), final(self).duration())
            } else {
                TimerAction::Stop
            }),
            final(self).elapsed() == old(self).elapsed() + 50_000_000,
            action == outcome(old(self).elapsed(), old(self).duration(), seq![running]),
            action is Stop <==> !running,
            action is Send <==> running && old(self).elapsed() + 50_000_000 >= old(
                self,
            ).duration(),
    {
        proof {
            law_one_sleep_decides(self.elapsed(), self.duration(), running);
        }
        self.time_acc = self.time_acc + TIMER_STEP_NANOS;
        if !running {
            self.stopped = true;
            return TimerAction::Stop;
        }
        self.start()
    }
}

/// What a timer comes to do that has slept through `elapsed` nanoseconds of `duration`, when the
/// sleeps that follow find `running` as they wake up, in that order.
pub open spec fn outcome(elapsed: nat, duration: nat, running: Seq<bool>) -> TimerAction
    decreases running.len(),
{
    if elapsed >= duration {
        TimerAction::Send
    } else if running.len() == 0 {
        TimerAction::Sleep
    } else if !running[0] {
        TimerAction::Stop
    } else {
        outcome(elapsed + TIMER_STEP_NANOS as nat, duration, running.skip(1))
    }
}

/// The number of sleeps before an event is due after `duration` nanoseconds.
pub open spec fn sleeps_before_due(duration: nat) -> nat {
    (duration + TIMER_STEP_NANOS as nat - 1) as nat / TIMER_STEP_NANOS as nat
}

/// A timer counts for each sleep as long as it sleeps.
pub proof fn law_step_is_one_sleep()
    ensures
        TIMER_STEP_NANOS == TIMER_SAMPLING_CHECK * NANOS_PER_MILLI,
        TIMER_STEP_NANOS == 50_000_000,
        TIMER_SAMPLING_CHECK == 50,
{
}

/// As long as some of its duration has to pass a timer sleeps, and then it sends, for every
/// duration and from the beginning on. It stops only on waking up.
pub proof fn law_timer_sleeps_until_due(elapsed: nat, duration: nat)
    ensures
        action_at(elapsed, duration) == outcome(elapsed, duration, Seq::empty()),
        action_at(elapsed, duration) is Sleep <==> elapsed < duration,
        action_at(elapsed, duration) is Send <==> elapsed >= duration,
        outcome(elapsed, duration, Seq::empty()) is Sleep <==> elapsed < duration,
        outcome(elapsed, duration, Seq::empty()) is Send <==> elapsed >= duration,
{
}

/// A new timer sleeps before anything else if it has a duration, and sends at once if it has none.
/// It never stops before its first sleep.
pub proof fn law_new_timer_waits_out_its_duration(
    duration: u128,
    timer: Timer,
    action: TimerAction,
)
    requires
        call_ensures(Timer::new, (duration,), timer),
        call_ensures(Timer::start, (&timer,), action),
    ensures
        duration > 0 ==> action is Sleep,
        duration == 0 ==> action is Send,
        action == outcome(0, duration as nat, Seq::empty()),
{
}

/// After one sleep a timer stops if it finds itself stopped. Otherwise it sends if the sleep has
/// brought it to the end of its duration, and sleeps again if not.
pub proof fn law_one_sleep_decides(elapsed: nat, duration: nat, running: bool)
    requires
        elapsed < duration,
    ensures
        outcome(elapsed, duration, seq![running]) is Stop <==> !running,
        outcome(elapsed, duration, seq![running]) is Send <==> running && elapsed + 50_000_000
            >= duration,
        outcome(elapsed, duration, seq![running]) == (if running {
            action_at(elapsed + 50_000_000, duration)
        } else {
            TimerAction::Stop
        }),
{
    assert(seq![running].skip(1) =~= Seq::empty());
    assert(outcome(elapsed + 50_000_000, duration, Seq::empty()) == action_at(
        elapsed + 50_000_000,
        duration,
    ));
}

/// An event is due after as many sleeps of fifty milliseconds as it takes to fill its duration, and
/// not one more.
pub proof fn law_sleeps_fill_the_duration(duration: nat, sleeps: nat)
    ensures
        sleeps_before_due(duration) <= sleeps <==> duration <= sleeps * 50_000_000,
{
}

/// The event is sent exactly when the timer has slept through its whole duration and found itself
/// running each time; it is never sent before, and no sleep follows the moment when it is due.
pub proof fn law_sent_when_due(duration: nat, running: Seq<bool>)
    ensures
        outcome(0, duration, running) == TimerAction::Send <==> {
            &&& sleeps_before_due(duration) <= running.len()
            &&& forall|i: int| 0 <= i < sleeps_before_due(duration) ==> running[i]
        },
        sleeps_before_due(duration) * TIMER_STEP_NANOS >= duration,
        sleeps_before_due(duration) > 0 ==> (sleeps_before_due(duration) - 1) * TIMER_STEP_NANOS
            < duration,
{
    lemma_sent_when_due(0, duration, running);
}

/// A timer that finds itself stopped before its event is due never sends it.
pub proof fn law_stopped_timer_never_sends(duration: nat, running: Seq<bool>, i: int)
    requires
        0 <= i < running.len(),
        !running[i],
        i < sleeps_before_due(duration),
    ensures
        outcome(0, duration, running) == TimerAction::Stop,
{
    lemma_stopped(0, duration, running, i);
}

/// Stopping settles every timer by its next waking up: the event of a timer that has found itself
/// running `at` times, and then stopped, was already sent if it was due by then, and is never sent
/// otherwise.
pub proof fn law_stopping_settles_a_timer(duration: nat, running: Seq<bool>, at: int)
    requires
        0 <= at < running.len(),
        forall|i: int| 0 <= i < at ==> running[i],
        !running[at],
    ensures
        outcome(0, duration, running) == if sleeps_before_due(duration) <= at {
            TimerAction::Send
        } else {
            TimerAction::Stop
        },
{
    law_sent_when_due(duration, running);
    if at < sleeps_before_due(duration) {
        law_stopped_timer_never_sends(duration, running, at);
    }
}

/// One more sleep takes a timer that sleeps to what [`Timer::after_sleep`] says.
pub proof fn law_each_sleep_is_one_step(elapsed: nat, duration: nat, running: Seq<bool>, next: bool)
    requires
        outcome(elapsed, duration, running) == TimerAction::Sleep,
    ensures
        elapsed + running.len() * TIMER_STEP_NANOS < duration,
        outcome(elapsed, duration, running.push(next)) == (if next {
            action_at(
                (elapsed + (running.len() + 1) * TIMER_STEP_NANOS) as nat,
                duration,
            )
        } else {
            TimerAction::Stop
        }),
    decreases running.len(),
{
    let step = TIMER_STEP_NANOS as nat;
    assert(running.push(next).skip(1) =~= if running.len() > 0 {
        running.skip(1).push(next)
    } else {
        Seq::empty()
    });
    if running.len() > 0 {
        law_each_sleep_is_one_step(elapsed + step, duration, running.skip(1), next);
    } else {
        assert(outcome(elapsed + step, duration, Seq::empty()) == action_at(
            elapsed + step,
            duration,
        ));
    }
}

proof fn lemma_sent_when_due(elapsed: nat, duration: nat, running: Seq<bool>)
    requires
        elapsed <= duration + TIMER_STEP_NANOS,
    ensures
        ({
            let due = if elapsed >= duration {
                0
            } else {
                sleeps_before_due((duration - elapsed) as nat)
            };
            outcome(elapsed, duration, running) == TimerAction::Send <==> {
                &&& due <= running.len()
                &&& forall|i: int| 0 <= i < due ==> running[i]
            }
        }),
    decreases running.len(),
{
    if elapsed < duration && running.len() > 0 && running[0] {
        let next = elapsed + TIMER_STEP_NANOS as nat;
        let rest = running.skip(1);
        lemma_sent_when_due(next, duration, rest);
        let due = sleeps_before_due((duration - elapsed) as nat);
        if due <= running.len() {
            assert(forall|i: int| 0 < i < due ==> running[i] == rest[i - 1]);
            assert(forall|i: int| 0 <= i < due - 1 ==> rest[i] == running[i + 1]);
        }
    }
}

proof fn lemma_stopped(elapsed: nat, duration: nat, running: Seq<bool>, i: int)
    requires
        0 <= i < running.len(),
        !running[i],
        elapsed < duration,
        i < sleeps_before_due((duration - elapsed) as nat),
    ensures
        outcome(elapsed, duration, running) == TimerAction::Stop,
    decreases running.len(),
{
    if running[0] {
        lemma_stopped(elapsed + TIMER_STEP_NANOS as nat, duration, running.skip(1), i - 1);
    }
}

} // verus!
