//! The decisions that a connection takes between two calls into its socket.

use crate::decoder::{Decoded, Decoder};
use crate::size::{declared_size, encode_size, size_bytes, wire_size, MAX_ENCODED_SIZE};
use crate::stream::{admissible, frame_of, frames, leftover, starts_with_frame};
use vstd::prelude::*;
use vstd::slice::slice_subrange;

verus! {

/// Size of the buffer that one read fills at most.
pub const INPUT_BUFFER_SIZE: usize = 65535;

/// How sending a message ended.
#[derive(Clone, Copy, Debug, PartialEq, Eq, Structural)]
pub enum SendStatus {
    /// The whole frame was handed to the socket.
    Sent,
    /// The socket failed.
    ResourceNotFound,
}

/// How receiving ended.
#[derive(Clone, Copy, Debug, PartialEq, Eq, Structural)]
pub enum ReadStatus {
    /// The connection is over.
    Disconnected,
    /// Nothing more can be read for now.
    WaitNextEvent,
}

/// How far a connection that is being opened has come.
#[derive(Clone, Copy, Debug, PartialEq, Eq, Structural)]
pub enum PendingStatus {
    /// The connection can be used.
    Ready,
    /// The connection is not there yet.
    Incomplete,
    /// The connection failed.
    Disconnected,
}

/// What one write to the socket came to.
#[derive(Clone, Copy, Debug, PartialEq, Eq, Structural)]
pub enum WriteOutcome {
    /// The socket took that many bytes, from the front of what it was offered.
    Written(usize),
    /// The socket would have blocked.
    WouldBlock,
    /// Any other error.
    Failed,
}

/// What one read from the socket came to.
#[derive(Clone, Copy, Debug, PartialEq, Eq, Structural)]
pub enum ReadOutcome {
    /// That many bytes arrived, at the front of the input buffer.
    Received(usize),
    /// The read was interrupted.
    Interrupted,
    /// The socket would have blocked.
    WouldBlock,
    /// The peer reset the connection.
    ConnectionReset,
    /// Any other error.
    Failed,
}

/// What to do after a read.
pub enum ReceiveStep<'a> {
    /// Process these frames, then read again.
    Process(Decoded<'a>),
    /// Read again.
    Retry,
    /// Stop reading.
    Finish(ReadStatus),
}

/// What one call of the listener's `accept` came to.
#[derive(Clone, Copy, Debug, PartialEq, Eq, Structural)]
pub enum AcceptOutcome {
    /// A connection came in.
    Accepted,
    /// The listener would have blocked.
    WouldBlock,
    /// The call was interrupted.
    Interrupted,
    /// Any other error.
    Failed,
}

/// What to do after a call of the listener's `accept`.
#[derive(Clone, Copy, Debug, PartialEq, Eq, Structural)]
pub enum AcceptStep {
    /// Register the connection, then accept again.
    Register,
    /// Accept again.
    Retry,
    /// Stop accepting.
    Finish,
}

/// A message on its way to the socket.
pub struct Sending<'a> {
    encoded_size: [u8; MAX_ENCODED_SIZE],
    data: &'a [u8],
    total_bytes_sent: usize,
    ended: bool,
}

/// The bytes that are offered to the socket when `sent` bytes of the frame are out: the rest of
/// the header, or once that is out, the rest of the message.
pub open spec fn offered(message: Seq<u8>, sent: nat) -> Seq<u8> {
    if sent < MAX_ENCODED_SIZE {
        size_bytes(wire_size(message.len())).skip(sent as int)
    } else {
        message.skip(sent - MAX_ENCODED_SIZE)
    }
}

/// The bytes that are out after a write that ended in `outcome`.
pub open spec fn sent_after(sent: nat, outcome: WriteOutcome) -> nat {
    match outcome {
        WriteOutcome::Written(n) => sent + n as nat,
        _ => sent,
    }
}

/// The status with which sending ends after a write that ended in `outcome`, if it ends.
pub open spec fn status_after(message: Seq<u8>, sent: nat, outcome: WriteOutcome) -> Option<
    SendStatus,
> {
    match outcome {
        WriteOutcome::Written(n) => if sent + n as nat == frame_of(message).len() {
            Some(SendStatus::Sent)
        } else {
            None
        },
        WriteOutcome::WouldBlock => None,
        WriteOutcome::Failed => Some(SendStatus::ResourceNotFound),
    }
}

/// Whether a write that ends in `outcome` took no more than it was offered.
pub open spec fn within_offer(message: Seq<u8>, sent: nat, outcome: WriteOutcome) -> bool {
    outcome matches WriteOutcome::Written(n) ==> n <= offered(message, sent).len()
}

/// A frame whose header can tell its length is no longer than a `usize` can count.
proof fn lemma_frame_len_fits(len: usize)
    requires
        wire_size(len as nat) <= u32::MAX,
    ensures
        MAX_ENCODED_SIZE + len <= usize::MAX,
{
    let high = len as int / 0x1_0000_0000;
    assert(len == high * 0x1_0000_0000 + len as int % 0x1_0000_0000);
    assert(usize::MAX == 0xffff_ffff || usize::MAX == 0xffff_ffff_ffff_ffff);
}

impl<'a> Sending<'a> {
    /// The message.
    pub closed spec fn message(self) -> Seq<u8> {
        self.data@
    }

    /// How many bytes of the frame the socket has taken.
    pub closed spec fn sent(self) -> nat {
        self.total_bytes_sent as nat
    }

    /// Whether sending has ended. There is then no further write.
    pub closed spec fn ended(self) -> bool {
        self.ended
    }

    /// The header is that of the message, and no more is out than the frame holds.
    pub closed spec fn wf(self) -> bool {
        &&& wire_size(self.data@.len()) <= u32::MAX
        &&& self.encoded_size@ == size_bytes(wire_size(self.data@.len()))
        &&& self.total_bytes_sent <= MAX_ENCODED_SIZE + self.data@.len()
    }

    /// Prepares `data` for sending.
    pub fn new(data: &'a [u8]) -> (sending: Sending<'a>)
        requires
            wire_size(data@.len()) <= u32::MAX,
        ensures
            sending.wf(),
            sending.message() == data@,
            sending.sent() == 0,
            !sending.ended(),
    {
        let mut buf: [u8; MAX_ENCODED_SIZE] = [0, 0, 0, 0];
        encode_size(data, &mut buf);
        Sending { encoded_size: buf, data, total_bytes_sent: 0, ended: false }
    }

    /// The bytes to offer to the socket next.
    pub fn data_to_send(&self) -> (bytes: &[u8])
        requires
            self.wf(),
        ensures
            bytes@ == offered(self.message(), self.sent()),
            self.sent() < 4 ==> {
                &&& bytes@.len() == 4 - self.sent()
                &&& bytes@ == frame_of(self.message()).subrange(self.sent() as int, 4)
            },
            self.sent() >= 4 ==> bytes@ == self.message().skip(self.sent() - 4),
    {
        proof {
            law_offer_is_all_of_the_part(self.message(), self.sent());
        }
        if self.total_bytes_sent < MAX_ENCODED_SIZE {
            let header: &[u8] = self.encoded_size.as_slice();
            slice_subrange(header, self.total_bytes_sent, header.len())
        } else {
            slice_subrange(self.data, self.total_bytes_sent - MAX_ENCODED_SIZE, self.data.len())
        }
    }

    /// Takes note of what a write of [`Sending::data_to_send`] came to. Sending goes on with
    /// another write until a status comes back.
    pub fn after_write(&mut self, outcome: WriteOutcome) -> (status: Option<SendStatus>)
        requires
            old(self).wf(),
            !old(self).ended(),
            within_offer(old(self).message(), old(self).sent(), outcome),
        ensures
            final(self).wf(),
            final(self).message() == old(self).message(),
            final(self).sent() == sent_after(old(self).sent(), outcome),
            status == status_after(old(self).message(), old(self).sent(), outcome),
            final(self).ended() == status is Some,
            match outcome {
                WriteOutcome::Written(n) => {
                    &&& final(self).sent() == old(self).sent() + n
                    &&& old(self).sent() + n <= old(self).message().len() + 4
                    &&& status == if old(self).sent() + n < old(self).message().len() + 4 {
                        None
                    } else {
                        Some(SendStatus::Sent)
                    }
                },
                WriteOutcome::WouldBlock => {
                    &&& final(self).sent() == old(self).sent()
                    &&& status is None
                },
                WriteOutcome::Failed => {
                    &&& final(self).sent() == old(self).sent()
                    &&& status == Some(SendStatus::ResourceNotFound)
                },
            },
    {
        match outcome {
            WriteOutcome::Written(bytes_sent) => {
                proof {
                    lemma_frame_len_fits(self.data.len());
                }
                let total_bytes: usize = MAX_ENCODED_SIZE + self.data.len();
                self.total_bytes_sent = self.total_bytes_sent + bytes_sent;
                if self.total_bytes_sent == total_bytes {
                    self.ended = true;
                    Some(SendStatus::Sent)
                } else {
                    None
                }
            },
            WriteOutcome::WouldBlock => None,
            WriteOutcome::Failed => {
                self.ended = true;
                Some(SendStatus::ResourceNotFound)
            },
        }
    }
}

/// The bytes that the socket takes in a series of writes that end in `outcomes`, when `sent` bytes
/// of the frame are out before.
pub open spec fn transmitted(message: Seq<u8>, sent: nat, outcomes: Seq<WriteOutcome>) -> Seq<u8>
    decreases outcomes.len(),
{
    if outcomes.len() == 0 {
        Seq::empty()
    } else {
        let taken = match outcomes[0] {
            WriteOutcome::Written(n) => offered(message, sent).take(n as int),
            _ => Seq::empty(),
        };
        taken + transmitted(message, sent_after(sent, outcomes[0]), outcomes.skip(1))
    }
}

/// The bytes of the frame that are out after a series of writes that end in `outcomes`.
pub open spec fn sent_after_all(sent: nat, outcomes: Seq<WriteOutcome>) -> nat
    decreases outcomes.len(),
{
    if outcomes.len() == 0 {
        sent
    } else {
        sent_after_all(sent_after(sent, outcomes[0]), outcomes.skip(1))
    }
}

/// Whether none of a series of writes that end in `outcomes` took more than it was offered.
pub open spec fn all_within_offer(
    message: Seq<u8>,
    sent: nat,
    outcomes: Seq<WriteOutcome>,
) -> bool
    decreases outcomes.len(),
{
    outcomes.len() > 0 ==> {
        &&& within_offer(message, sent, outcomes[0])
        &&& all_within_offer(message, sent_after(sent, outcomes[0]), outcomes.skip(1))
    }
}

/// What is offered to the socket is always the next part of the frame, and there is something to
/// offer until the frame is out.
pub proof fn law_offer_continues_the_frame(message: Seq<u8>, sent: nat)
    requires
        sent <= frame_of(message).len(),
    ensures
        offered(message, sent).len() <= frame_of(message).len() - sent,
        offered(message, sent) == frame_of(message).subrange(
            sent as int,
            (sent + offered(message, sent).len()) as int,
        ),
        offered(message, sent).len() == 0 <==> sent == frame_of(message).len(),
{
    assert(offered(message, sent) =~= frame_of(message).subrange(
        sent as int,
        (sent + offered(message, sent).len()) as int,
    ));
}

/// While the header is going out the socket is offered all that is left of its four bytes, and then
/// all that is left of the message: never less.
pub proof fn law_offer_is_all_of_the_part(message: Seq<u8>, sent: nat)
    ensures
        sent < 4 ==> offered(message, sent) == frame_of(message).subrange(sent as int, 4),
        4 <= sent <= message.len() + 4 ==> offered(message, sent) == message.subrange(
            sent - 4,
            message.len() as int,
        ),
{
    if sent < 4 {
        assert(offered(message, sent) =~= frame_of(message).subrange(sent as int, 4));
    } else if sent <= message.len() + 4 {
        assert(offered(message, sent) =~= message.subrange(sent - 4, message.len() as int));
    }
}

/// A write can take any number of bytes up to all that it was offered, and every other outcome is
/// possible at any time.
pub proof fn law_any_part_of_the_offer_can_be_taken(
    message: Seq<u8>,
    sent: nat,
    outcome: WriteOutcome,
)
    requires
        sent <= message.len() + 4,
    ensures
        within_offer(message, sent, outcome) <==> (outcome matches WriteOutcome::Written(n)
            ==> n <= if sent < 4 {
            4 - sent
        } else {
            message.len() + 4 - sent
        }),
{
}

/// Sending fails exactly when a write fails, and is over exactly when the last of the message's
/// bytes, and the four of the header, are out. As long as fewer are out it goes on, whatever the
/// length of the message. A write that took bytes counts all of them, and no other write counts.
pub proof fn law_only_a_failed_write_fails(message: Seq<u8>, sent: nat, outcome: WriteOutcome)
    ensures
        status_after(message, sent, outcome) == Some(SendStatus::ResourceNotFound)
            <==> outcome is Failed,
        status_after(message, sent, outcome) == Some(SendStatus::Sent) <==> (
        outcome matches WriteOutcome::Written(n) && sent + n == message.len() + 4),
        outcome matches WriteOutcome::Written(n) ==> sent_after(sent, outcome) == sent + n,
        !(outcome is Written) ==> sent_after(sent, outcome) == sent,
{
}

/// However the socket splits, refuses or delays the writes, the bytes that it has taken are the
/// frame as far as it is out: none is missing, doubled or out of place.
pub proof fn law_writes_follow_the_frame(message: Seq<u8>, sent: nat, outcomes: Seq<WriteOutcome>)
    requires
        sent <= frame_of(message).len(),
        all_within_offer(message, sent, outcomes),
    ensures
        sent <= sent_after_all(sent, outcomes) <= frame_of(message).len(),
        transmitted(message, sent, outcomes) == frame_of(message).subrange(
            sent as int,
            sent_after_all(sent, outcomes) as int,
        ),
    decreases outcomes.len(),
{
    let frame = frame_of(message);
    if outcomes.len() > 0 {
        let next = sent_after(sent, outcomes[0]);
        law_offer_continues_the_frame(message, sent);
        law_writes_follow_the_frame(message, next, outcomes.skip(1));
        assert(frame.subrange(sent as int, next as int) + frame.subrange(
            next as int,
            sent_after_all(sent, outcomes) as int,
        ) =~= frame.subrange(sent as int, sent_after_all(sent, outcomes) as int));
        if let WriteOutcome::Written(n) = outcomes[0] {
            assert(offered(message, sent).take(n as int) =~= frame.subrange(
                sent as int,
                next as int,
            ));
        } else {
            assert(frame.subrange(sent as int, next as int) =~= Seq::empty());
        }
    } else {
        assert(transmitted(message, sent, outcomes) =~= frame.subrange(sent as int, sent as int));
    }
}

/// The writes before the last one, and then the last one.
proof fn lemma_last_write(sent: nat, outcomes: Seq<WriteOutcome>)
    requires
        outcomes.len() > 0,
    ensures
        sent_after_all(sent, outcomes) == sent_after(
            sent_after_all(sent, outcomes.drop_last()),
            outcomes.last(),
        ),
    decreases outcomes.len(),
{
    if outcomes.len() > 1 {
        lemma_last_write(sent_after(sent, outcomes[0]), outcomes.skip(1));
        assert(outcomes.skip(1).drop_last() =~= outcomes.drop_last().skip(1));
    } else {
        let next = sent_after(sent, outcomes[0]);
        assert(sent_after_all(next, outcomes.skip(1)) == next);
        assert(sent_after_all(sent, outcomes.drop_last()) == sent);
    }
}

/// Sending a message ends in `Sent` exactly when the last write takes the end of the frame, and
/// the socket has then taken the whole frame and nothing else.
pub proof fn law_sent_is_the_whole_frame(message: Seq<u8>, outcomes: Seq<WriteOutcome>)
    requires
        outcomes.len() > 0,
        all_within_offer(message, 0, outcomes),
    ensures
        status_after(
            message,
            sent_after_all(0, outcomes.drop_last()),
            outcomes.last(),
        ) == Some(SendStatus::Sent) <==> {
            &&& outcomes.last() is Written
            &&& transmitted(message, 0, outcomes) == frame_of(message)
        },
{
    lemma_last_write(0, outcomes);
    law_writes_follow_the_frame(message, 0, outcomes);
    let frame = frame_of(message);
    assert(frame.subrange(0, frame.len() as int) =~= frame);
}

/// The status with which sending ends in a series of writes that end in `outcomes`, if it ends.
pub open spec fn send_status(
    message: Seq<u8>,
    sent: nat,
    outcomes: Seq<WriteOutcome>,
) -> Option<SendStatus>
    decreases outcomes.len(),
{
    if outcomes.len() == 0 {
        None
    } else {
        match status_after(message, sent, outcomes[0]) {
            Some(status) => Some(status),
            None => send_status(message, sent_after(sent, outcomes[0]), outcomes.skip(1)),
        }
    }
}

/// One more write continues a series where the writes before it got to, and decides the status if
/// none of them did.
pub proof fn law_one_more_write(
    message: Seq<u8>,
    sent: nat,
    outcomes: Seq<WriteOutcome>,
    outcome: WriteOutcome,
)
    ensures
        ({
            let out = sent_after_all(sent, outcomes);
            let more = outcomes.push(outcome);
            &&& sent_after_all(sent, more) == sent_after(out, outcome)
            &&& transmitted(message, sent, more) == transmitted(message, sent, outcomes) + (
            match outcome {
                WriteOutcome::Written(n) => offered(message, out).take(n as int),
                _ => Seq::empty(),
            })
            &&& all_within_offer(message, sent, more) <==> all_within_offer(message, sent, outcomes)
                && within_offer(message, out, outcome)
            &&& send_status(message, sent, more) == match send_status(message, sent, outcomes) {
                Some(status) => Some(status),
                None => status_after(message, out, outcome),
            }
        }),
    decreases outcomes.len(),
{
    let more = outcomes.push(outcome);
    if outcomes.len() == 0 {
        let next = sent_after(sent, outcome);
        assert(more.skip(1) =~= Seq::empty());
        assert(sent_after_all(next, more.skip(1)) == next);
        assert(transmitted(message, next, more.skip(1)) =~= Seq::empty());
        assert(all_within_offer(message, next, more.skip(1)));
        assert(send_status(message, next, more.skip(1)) is None);
        assert(transmitted(message, sent, outcomes) =~= Seq::empty());
    } else {
        assert(more.skip(1) =~= outcomes.skip(1).push(outcome));
        law_one_more_write(message, sent_after(sent, outcomes[0]), outcomes.skip(1), outcome);
    }
    assert(transmitted(message, sent, more) =~= transmitted(message, sent, outcomes) + (
    match outcome {
        WriteOutcome::Written(n) => offered(message, sent_after_all(sent, outcomes)).take(n as int),
        _ => Seq::empty(),
    }));
}

/// The bytes that are out after a series of writes are those that were out before and those that
/// each write took.
pub proof fn law_bytes_out_add_up(sent: nat, outcomes: Seq<WriteOutcome>)
    ensures
        sent_after_all(sent, outcomes) == outcomes.fold_left(
            sent,
            |out: nat, outcome: WriteOutcome|
                match outcome {
                    WriteOutcome::Written(n) => out + n as nat,
                    _ => out,
                },
        ),
    decreases outcomes.len(),
{
    if outcomes.len() > 0 {
        lemma_last_write(sent, outcomes);
        law_bytes_out_add_up(sent, outcomes.drop_last());
    }
}

/// For every message, writes that do not fail end in `Sent` once they cover the frame, however they
/// split it and however often they are refused; while they do not cover it they end in nothing.
pub proof fn law_covering_writes_end_in_sent(message: Seq<u8>, outcomes: Seq<WriteOutcome>)
    requires
        all_within_offer(message, 0, outcomes),
        forall|i: int| 0 <= i < outcomes.len() ==> !(#[trigger] outcomes[i] is Failed),
    ensures
        sent_after_all(0, outcomes) <= message.len() + 4,
        send_status(message, 0, outcomes) == if sent_after_all(0, outcomes) < message.len() + 4 {
            None
        } else {
            Some(SendStatus::Sent)
        },
{
    lemma_covering_writes(message, 0, outcomes);
}

proof fn lemma_covering_writes(message: Seq<u8>, sent: nat, outcomes: Seq<WriteOutcome>)
    requires
        sent < message.len() + 4,
        all_within_offer(message, sent, outcomes),
        forall|i: int| 0 <= i < outcomes.len() ==> !(#[trigger] outcomes[i] is Failed),
    ensures
        sent <= sent_after_all(sent, outcomes) <= message.len() + 4,
        send_status(message, sent, outcomes) == if sent_after_all(sent, outcomes) < message.len()
            + 4 {
            None
        } else {
            Some(SendStatus::Sent)
        },
    decreases outcomes.len(),
{
    if outcomes.len() > 0 {
        let next = sent_after(sent, outcomes[0]);
        let rest = outcomes.skip(1);
        law_writes_follow_the_frame(message, sent, outcomes);
        law_writes_follow_the_frame(message, next, rest);
        assert(!(outcomes[0] is Failed));
        assert forall|i: int| 0 <= i < rest.len() implies !(#[trigger] rest[i] is Failed) by {
            assert(rest[i] == outcomes[i + 1]);
        }
        if next < message.len() + 4 {
            lemma_covering_writes(message, next, rest);
        }
    }
}

/// The first write that fails before the frame is out is what sending ends with, whatever the
/// message and however much of its frame is out.
pub proof fn law_failed_write_ends_sending(message: Seq<u8>, outcomes: Seq<WriteOutcome>)
    requires
        outcomes.len() > 0,
        outcomes.last() is Failed,
        send_status(message, 0, outcomes.drop_last()) is None,
    ensures
        send_status(message, 0, outcomes) == Some(SendStatus::ResourceNotFound),
{
    lemma_failed_write(message, 0, outcomes);
}

proof fn lemma_failed_write(message: Seq<u8>, sent: nat, outcomes: Seq<WriteOutcome>)
    requires
        outcomes.len() > 0,
        outcomes.last() is Failed,
        send_status(message, sent, outcomes.drop_last()) is None,
    ensures
        send_status(message, sent, outcomes) == Some(SendStatus::ResourceNotFound),
    decreases outcomes.len(),
{
    if outcomes.len() > 1 {
        let next = sent_after(sent, outcomes[0]);
        assert(outcomes.drop_last()[0] == outcomes[0]);
        assert(outcomes.skip(1).drop_last() =~= outcomes.drop_last().skip(1));
        lemma_failed_write(message, next, outcomes.skip(1));
    }
}

/// A series of writes without those that would have blocked.
pub open spec fn unrefused(outcomes: Seq<WriteOutcome>) -> Seq<WriteOutcome>
    decreases outcomes.len(),
{
    if outcomes.len() == 0 {
        Seq::empty()
    } else if outcomes[0] is WouldBlock {
        unrefused(outcomes.skip(1))
    } else {
        seq![outcomes[0]] + unrefused(outcomes.skip(1))
    }
}

/// Without the writes that would have blocked, a series of writes is just as good.
proof fn lemma_unrefused(message: Seq<u8>, sent: nat, outcomes: Seq<WriteOutcome>)
    ensures
        transmitted(message, sent, unrefused(outcomes)) == transmitted(message, sent, outcomes),
        sent_after_all(sent, unrefused(outcomes)) == sent_after_all(sent, outcomes),
        send_status(message, sent, unrefused(outcomes)) == send_status(message, sent, outcomes),
        all_within_offer(message, sent, unrefused(outcomes)) == all_within_offer(
            message,
            sent,
            outcomes,
        ),
    decreases outcomes.len(),
{
    if outcomes.len() > 0 {
        let next = sent_after(sent, outcomes[0]);
        lemma_unrefused(message, next, outcomes.skip(1));
        if outcomes[0] is WouldBlock {
            assert(transmitted(message, sent, outcomes) =~= transmitted(
                message,
                sent,
                outcomes.skip(1),
            ));
        } else {
            assert(unrefused(outcomes).skip(1) =~= unrefused(outcomes.skip(1)));
            assert(unrefused(outcomes)[0] == outcomes[0]);
        }
    }
}

/// A write that would have blocked is tried again at the same byte: two series of writes that
/// differ only in such writes put out the same bytes and end in the same status.
pub proof fn law_refused_writes_have_no_effect(
    message: Seq<u8>,
    sent: nat,
    outcomes: Seq<WriteOutcome>,
    others: Seq<WriteOutcome>,
)
    requires
        unrefused(outcomes) == unrefused(others),
    ensures
        transmitted(message, sent, outcomes) == transmitted(message, sent, others),
        sent_after_all(sent, outcomes) == sent_after_all(sent, others),
        send_status(message, sent, outcomes) == send_status(message, sent, others),
        all_within_offer(message, sent, outcomes) == all_within_offer(message, sent, others),
{
    lemma_unrefused(message, sent, outcomes);
    lemma_unrefused(message, sent, others);
}

/// The bytes that a read into `input` brought.
pub open spec fn arrived(outcome: ReadOutcome, input: Seq<u8>) -> Seq<u8> {
    match outcome {
        ReadOutcome::Received(size) => input.take(size as int),
        _ => Seq::empty(),
    }
}

/// The status with which receiving ends after a read that ended in `outcome`, if it ends.
pub open spec fn ended_by(outcome: ReadOutcome) -> Option<ReadStatus> {
    match outcome {
        ReadOutcome::Received(size) => if size == 0 {
            Some(ReadStatus::Disconnected)
        } else {
            None
        },
        ReadOutcome::Interrupted => None,
        ReadOutcome::WouldBlock => Some(ReadStatus::WaitNextEvent),
        ReadOutcome::ConnectionReset | ReadOutcome::Failed => Some(ReadStatus::Disconnected),
    }
}

impl<'a> ReceiveStep<'a> {
    /// The frames to process.
    pub open spec fn frames(self) -> Seq<Seq<u8>> {
        match self {
            ReceiveStep::Process(decoded) => decoded.frames(),
            _ => Seq::empty(),
        }
    }

    /// The status with which receiving ends, if it ends.
    pub open spec fn status(self) -> Option<ReadStatus> {
        match self {
            ReceiveStep::Finish(status) => Some(status),
            _ => None,
        }
    }
}

/// All that a read brought arrives, and nothing else: as many bytes as the read says, from the
/// front of the buffer, whatever their number. Every other read brings nothing.
pub proof fn law_every_byte_of_a_read_arrives(outcome: ReadOutcome, input: Seq<u8>)
    requires
        outcome matches ReadOutcome::Received(size) ==> size <= input.len(),
    ensures
        arrived(outcome, input).len() == (match outcome {
            ReadOutcome::Received(size) => size as nat,
            _ => 0,
        }),
        forall|i: int|
            0 <= i < arrived(outcome, input).len() ==> #[trigger] arrived(outcome, input)[i]
                == input[i],
        outcome matches ReadOutcome::Received(size) ==> arrived(outcome, input) + input.skip(
            size as int,
        ) == input,
{
    if let ReadOutcome::Received(size) = outcome {
        assert(arrived(outcome, input) + input.skip(size as int) =~= input);
    }
}

/// Reading goes on exactly after a read that brought bytes or was interrupted. It waits for the
/// next event exactly after one that would have blocked; a read that brought no byte, a reset and
/// any other error mean that the connection is over.
pub proof fn law_reading_goes_on_while_bytes_come(outcome: ReadOutcome)
    ensures
        ended_by(outcome) is None <==> outcome is Interrupted || (
        outcome matches ReadOutcome::Received(size) && size > 0),
        ended_by(outcome) == Some(ReadStatus::WaitNextEvent) <==> outcome is WouldBlock,
        ended_by(outcome) == Some(ReadStatus::Disconnected) <==> outcome is ConnectionReset
            || outcome is Failed || outcome == ReadOutcome::Received(0),
{
}

/// Only a step that processes hands over frames, and those that its decoded data holds; only one
/// that finishes has a status, and it is the one that it carries.
pub proof fn law_steps_either_process_or_finish(step: ReceiveStep)
    ensures
        step matches ReceiveStep::Process(decoded) ==> {
            &&& step.frames() == decoded.frames()
            &&& step.status() is None
        },
        step matches ReceiveStep::Finish(status) ==> {
            &&& step.frames().len() == 0
            &&& step.status() == Some(status)
        },
        step is Retry ==> step.frames().len() == 0 && step.status() is None,
{
}

/// Decides what follows a read into `input`. Bytes that arrived are decoded.
pub fn receive_step<'a>(
    decoder: &mut Decoder,
    outcome: ReadOutcome,
    input: &'a [u8],
) -> (step: ReceiveStep<'a>)
    requires
        old(decoder).wf(),
        outcome matches ReadOutcome::Received(size) ==> {
            &&& size <= input@.len()
            &&& size > 0 ==> admissible(old(decoder)@, arrived(outcome, input@))
        },
    ensures
        final(decoder).wf(),
        step.frames() == frames(old(decoder)@ + arrived(outcome, input@)),
        final(decoder)@ == leftover(old(decoder)@ + arrived(outcome, input@)),
        step.status() == ended_by(outcome),
        step is Retry <==> outcome is Interrupted,
        step matches ReceiveStep::Process(decoded) ==> (decoded.completed is Some <==> {
            &&& old(decoder)@.len() > 0
            &&& starts_with_frame(old(decoder)@ + arrived(outcome, input@))
        }),
        arrived(outcome, input@).len() == 0 ==> final(decoder)@ == old(decoder)@,
        match outcome {
            ReadOutcome::Received(size) => size > 0 ==> {
                let all = old(decoder)@ + input@.take(size as int);
                &&& final(decoder)@ == leftover(all)
                &&& step matches ReceiveStep::Process(decoded)
                &&& decoded.frames() == frames(all)
                &&& decoded.completed is Some <==> old(decoder)@.len() > 0 && starts_with_frame(all)
                &&& decoded.completed matches Some(frame) ==> {
                    &&& frame@ == all.take(declared_size(all)->0 as int)
                    &&& decoded.rest@ == all.skip(declared_size(all)->0 as int)
                }
                &&& old(decoder)@.len() == 0 ==> decoded.rest@ == input@.take(size as int)
                &&& decoded.completed is None && old(decoder)@.len() > 0 ==> decoded.rest@
                    == Seq::<u8>::empty()
            },
            _ => true,
        },
        match outcome {
            ReadOutcome::Received(size) => size == 0 ==> step == ReceiveStep::Finish(
                ReadStatus::Disconnected,
            ),
            ReadOutcome::Interrupted => step is Retry,
            ReadOutcome::WouldBlock => step == ReceiveStep::Finish(ReadStatus::WaitNextEvent),
            ReadOutcome::ConnectionReset => step == ReceiveStep::Finish(ReadStatus::Disconnected),
            ReadOutcome::Failed => step == ReceiveStep::Finish(ReadStatus::Disconnected),
        },
        !(step is Process) ==> final(decoder)@ == old(decoder)@,
{
    assert(old(decoder)@ + Seq::<u8>::empty() =~= old(decoder)@);
    match outcome {
        ReadOutcome::Received(size) => {
            if size == 0 {
                assert(arrived(outcome, input@) =~= Seq::empty());
                ReceiveStep::Finish(ReadStatus::Disconnected)
            } else {
                let (data, _) = input.split_at(size);
                assert(data@ =~= input@.take(size as int));
                ReceiveStep::Process(decoder.decode(data))
            }
        },
        ReadOutcome::Interrupted => ReceiveStep::Retry,
        ReadOutcome::WouldBlock => ReceiveStep::Finish(ReadStatus::WaitNextEvent),
        ReadOutcome::ConnectionReset => ReceiveStep::Finish(ReadStatus::Disconnected),
        // should not happen
        ReadOutcome::Failed => ReceiveStep::Finish(ReadStatus::Disconnected),
    }
}

/// Decides what follows a call of the listener's `accept`.
pub fn accept_step(outcome: AcceptOutcome) -> (step: AcceptStep)
    ensures
        step == (match outcome {
            AcceptOutcome::Accepted => AcceptStep::Register,
            AcceptOutcome::Interrupted => AcceptStep::Retry,
            AcceptOutcome::WouldBlock | AcceptOutcome::Failed => AcceptStep::Finish,
        }),
{
    match outcome {
        AcceptOutcome::Accepted => AcceptStep::Register,
        AcceptOutcome::WouldBlock => AcceptStep::Finish,
        AcceptOutcome::Interrupted => AcceptStep::Retry,
        // should not happen
        AcceptOutcome::Failed => AcceptStep::Finish,
    }
}

/// A connection is registered exactly when one came in, accepting is tried again at once exactly
/// after an interruption, and it stops otherwise.
pub proof fn law_every_accepted_connection_is_registered(outcome: AcceptOutcome, step: AcceptStep)
    requires
        call_ensures(accept_step, (outcome,), step),
    ensures
        step is Register <==> outcome is Accepted,
        step is Retry <==> outcome is Interrupted,
        step is Finish <==> outcome is WouldBlock || outcome is Failed,
{
}

} // verus!
