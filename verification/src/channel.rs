//! The channel behind an event queue, with a record of what came out of it.

use crossbeam_channel::{Receiver, RecvError, RecvTimeoutError, Sender};
use std::time::Duration;
use vstd::prelude::*;

verus! {

/// The sending half of a channel of `crossbeam_channel`.
#[verifier::external_type_specification]
#[verifier::external_body]
#[verifier::reject_recursive_types(T)]
pub struct ExSender<T>(crossbeam_channel::Sender<T>);

/// The receiving half of a channel of `crossbeam_channel`.
#[verifier::external_type_specification]
#[verifier::external_body]
#[verifier::reject_recursive_types(T)]
pub struct ExReceiver<T>(crossbeam_channel::Receiver<T>);

/// The error of `crossbeam_channel::Receiver::recv`.
#[verifier::external_type_specification]
#[verifier::external_body]
pub struct ExRecvError(crossbeam_channel::RecvError);

/// The error of `crossbeam_channel::Receiver::recv_timeout`.
#[verifier::external_type_specification]
#[verifier::external_body]
pub struct ExRecvTimeoutError(crossbeam_channel::RecvTimeoutError);

/// One wait at a channel: for how long at most, and the event that it brought.
pub struct Wait<E> {
    /// The longest time to wait. `None` is for as long as it takes.
    pub timeout: Option<Duration>,
    /// The event that left the channel, if one did.
    pub event: Option<E>,
}

/// The receiving half of a channel, with a record of every wait at it.
#[verifier::reject_recursive_types(E)]
pub struct Inbox<E> {
    receiver: Receiver<E>,
    waits: Ghost<Seq<Wait<E>>>,
}

/// The events that left a channel in a series of waits, in the order in which they left.
pub open spec fn taken<E>(waits: Seq<Wait<E>>) -> Seq<E>
    decreases waits.len(),
{
    if waits.len() == 0 {
        Seq::empty()
    } else {
        match waits.last().event {
            Some(event) => taken(waits.drop_last()).push(event),
            None => taken(waits.drop_last()),
        }
    }
}

/// The event in what a receive came to, if it brought one.
pub open spec fn event_in<E, F>(received: Result<E, F>) -> Option<E> {
    match received {
        Ok(event) => Some(event),
        Err(_) => None,
    }
}

/// `crossbeam_channel::unbounded`: it makes a channel that holds any number of messages. What goes
/// through the channel later depends on all threads that hold one of its halves, and nothing is
/// claimed of it.
#[verifier::external_body]
fn unbounded_channel<E>() -> (channel: (Sender<E>, Receiver<E>)) {
    crossbeam_channel::unbounded()
}

/// Whether `sender` and `receiver` are the halves of one channel, which was made with both of them.
pub closed spec fn one_channel<E>(sender: Sender<E>, receiver: Receiver<E>) -> bool {
    call_ensures(unbounded_channel::<E>, (), (sender, receiver))
}

/// `crossbeam_channel::Sender::send`: if no receiver is left, it hands the event back. Whether one
/// is left is up to other threads.
#[verifier::external_body]
fn channel_send<E>(sender: &Sender<E>, event: E) -> (result: Result<(), E>)
    ensures
        result matches Err(unsent) ==> unsent == event,
{
    sender.send(event).map_err(|error| error.0)
}

/// Whether handing `event` to `sender` can come to `result`.
pub closed spec fn send_outcome<E>(sender: Sender<E>, event: E, result: Result<(), E>) -> bool {
    call_ensures(channel_send::<E>, (&sender, event), result)
}

/// Two halves belong to one channel only if one call made both.
proof fn law_one_channel_has_both_halves<E>(sender: Sender<E>, receiver: Receiver<E>)
    requires
        one_channel(sender, receiver),
    ensures
        call_ensures(unbounded_channel::<E>, (), (sender, receiver)),
{
}

/// What handing over an event came to is what the channel said to that event at that sender, so
/// that an event that comes back is the one that was handed over.
proof fn law_send_outcome_is_the_channels<E>(sender: Sender<E>, event: E, result: Result<(), E>)
    requires
        send_outcome(sender, event, result),
    ensures
        call_ensures(channel_send::<E>, (&sender, event), result),
        result matches Err(unsent) ==> unsent == event,
{
}

/// Whether `event` was handed, with success, to a sender to the channel of `receiver`.
pub open spec fn sent_to<E>(receiver: Receiver<E>, event: E) -> bool {
    exists|sender: Sender<E>|
        one_channel(sender, receiver) && #[trigger] send_outcome(sender, event, Ok(()))
}

/// Hands `event` to `sender`. If no receiver is left, the event comes back.
pub(crate) fn send_event<E>(sender: &Sender<E>, event: E) -> (result: Result<(), E>)
    ensures
        send_outcome(*sender, event, result),
        result matches Err(unsent) ==> unsent == event,
{
    channel_send(sender, event)
}

/// `Clone::clone` of `crossbeam_channel::Sender`: it counts one more sender, and hands out the same
/// reference to the same channel.
#[verifier::external_body]
pub(crate) fn channel_sender<E>(sender: &Sender<E>) -> (other: Sender<E>)
    ensures
        other == *sender,
{
    sender.clone()
}

/// Makes a channel.
pub(crate) fn open_channel<E>() -> (channel: (Sender<E>, Inbox<E>))
    ensures
        one_channel(channel.0, channel.1.source()),
        channel.1.waits() == Seq::<Wait<E>>::empty(),
{
    let (sender, receiver) = unbounded_channel();
    (sender, Inbox { receiver, waits: Ghost(Seq::empty()) })
}

impl<E> Inbox<E> {
    /// The half of the channel from which the events come.
    pub closed spec fn source(self) -> Receiver<E> {
        self.receiver
    }

    /// Every wait at the channel so far.
    pub closed spec fn waits(self) -> Seq<Wait<E>> {
        self.waits@
    }

    /// `crossbeam_channel::Receiver::recv`: it waits for the next event, and takes that event, and
    /// no other, out of the channel. The event was sent to the channel. The call fails only once
    /// the channel is empty and no sender is left, and then takes nothing. So it brings an event if
    /// `_kept`, which is there as long as the call lasts, is a sender to the same channel. Which
    /// event comes is up to the threads that send. The record of the waits stands for what happened and is not computed.
    #[verifier::external_body]
    pub(crate) fn channel_recv(&mut self, _kept: &Sender<E>) -> (received: Result<E, RecvError>)
        ensures
            final(self).source() == old(self).source(),
            final(self).waits() == old(self).waits().push(
                (Wait { timeout: None, event: event_in(received) }),
            ),
            one_channel(*_kept, old(self).source()) ==> received is Ok,
            received matches Ok(event) ==> sent_to(old(self).source(), event),
    {
        self.receiver.recv()
    }

    /// `crossbeam_channel::Receiver::recv_timeout`: it waits for the next event, but not longer
    /// than `timeout`, and takes that event, and no other, out of the channel. The event was sent
    /// to the channel. If the call fails it takes nothing. Which event comes, and whether one comes
    /// in time, is up to the threads that send. The record of the waits stands for what happened and is not computed.
    #[verifier::external_body]
    pub(crate) fn channel_recv_timeout(&mut self, timeout: Duration) -> (received: Result<
        E,
        RecvTimeoutError,
    >)
        ensures
            final(self).source() == old(self).source(),
            final(self).waits() == old(self).waits().push(
                (Wait { timeout: Some(timeout), event: event_in(received) }),
            ),
            received matches Ok(event) ==> sent_to(old(self).source(), event),
    {
        self.receiver.recv_timeout(timeout)
    }
}

} // verus!
