//! What a series of reads comes to.

use crate::size::MAX_ENCODED_SIZE;
use crate::stream::{
    admissible, all_fit, chunks_admissible, frame_of, frames, frames_of_chunks, joined,
    law_chunks_do_not_matter, law_cut_anywhere, law_delivery, law_frame_declares_its_length,
    law_leftover_is_incomplete, leftover, starts_with_frame,
};
use crate::transfer::{
    all_within_offer, arrived, ended_by, law_sent_is_the_whole_frame, send_status, sent_after_all,
    status_after, transmitted, ReadOutcome, ReadStatus, SendStatus, WriteOutcome,
};
use vstd::prelude::*;

verus! {

/// One read: what it came to, and the input buffer after it.
pub struct Read {
    /// What the read came to.
    pub outcome: ReadOutcome,
    /// The input buffer, with what arrived at its front.
    pub input: Seq<u8>,
}

/// What arrives in a series of reads, read by read, until one of them ends the series.
pub open spec fn chunks_of_reads(reads: Seq<Read>) -> Seq<Seq<u8>>
    decreases reads.len(),
{
    if reads.len() == 0 || ended_by(reads[0].outcome) is Some {
        Seq::empty()
    } else {
        seq![arrived(reads[0].outcome, reads[0].input)] + chunks_of_reads(reads.skip(1))
    }
}

/// The frames that are handed over in a series of reads, when the bytes `stored` are there before.
pub open spec fn frames_of_reads(stored: Seq<u8>, reads: Seq<Read>) -> Seq<Seq<u8>>
    decreases reads.len(),
{
    if reads.len() == 0 {
        Seq::empty()
    } else {
        let all = stored + arrived(reads[0].outcome, reads[0].input);
        if ended_by(reads[0].outcome) is Some {
            frames(all)
        } else {
            frames(all) + frames_of_reads(leftover(all), reads.skip(1))
        }
    }
}

/// The bytes that stay behind after a series of reads, when the bytes `stored` are there before.
pub open spec fn stored_after_reads(stored: Seq<u8>, reads: Seq<Read>) -> Seq<u8>
    decreases reads.len(),
{
    if reads.len() == 0 {
        stored
    } else {
        let all = stored + arrived(reads[0].outcome, reads[0].input);
        if ended_by(reads[0].outcome) is Some {
            leftover(all)
        } else {
            stored_after_reads(leftover(all), reads.skip(1))
        }
    }
}

/// Whether decoding can go on after each read of a series that brings bytes.
pub open spec fn reads_admissible(stored: Seq<u8>, reads: Seq<Read>) -> bool
    decreases reads.len(),
{
    reads.len() > 0 && ended_by(reads[0].outcome) is None ==> {
        let chunk = arrived(reads[0].outcome, reads[0].input);
        &&& admissible(stored, chunk)
        &&& reads_admissible(leftover(stored + chunk), reads.skip(1))
    }
}

/// What the read came to that ends a series, if one does.
pub open spec fn ending_read(reads: Seq<Read>) -> Option<ReadOutcome>
    decreases reads.len(),
{
    if reads.len() == 0 {
        None
    } else if ended_by(reads[0].outcome) is Some {
        Some(reads[0].outcome)
    } else {
        ending_read(reads.skip(1))
    }
}

/// The status with which a series of reads ends, if it ends.
pub open spec fn status_of_reads(reads: Seq<Read>) -> Option<ReadStatus>
    decreases reads.len(),
{
    if reads.len() == 0 {
        None
    } else {
        match ended_by(reads[0].outcome) {
            Some(status) => Some(status),
            None => status_of_reads(reads.skip(1)),
        }
    }
}

/// A series of reads without those that were interrupted.
pub open spec fn uninterrupted(reads: Seq<Read>) -> Seq<Read>
    decreases reads.len(),
{
    if reads.len() == 0 {
        Seq::empty()
    } else if reads[0].outcome is Interrupted {
        uninterrupted(reads.skip(1))
    } else {
        seq![reads[0]] + uninterrupted(reads.skip(1))
    }
}

/// A read that ends a series brings nothing.
proof fn lemma_ending_read_brings_nothing(read: Read)
    requires
        ended_by(read.outcome) is Some,
    ensures
        arrived(read.outcome, read.input) == Seq::<u8>::empty(),
{
    assert(arrived(read.outcome, read.input) =~= Seq::empty());
}

/// The frames that a series of reads hands over, and the bytes that it leaves behind, are those of
/// everything that arrived, put together behind what was stored before.
pub proof fn law_reads_hand_over_the_stream(stored: Seq<u8>, reads: Seq<Read>)
    requires
        !starts_with_frame(stored),
    ensures
        frames_of_reads(stored, reads) == frames(stored + joined(chunks_of_reads(reads))),
        stored_after_reads(stored, reads) == leftover(stored + joined(chunks_of_reads(reads))),
    decreases reads.len(),
{
    let chunks = chunks_of_reads(reads);
    if reads.len() == 0 {
        assert(stored + joined(chunks) =~= stored);
    } else if ended_by(reads[0].outcome) is Some {
        lemma_ending_read_brings_nothing(reads[0]);
    } else {
        let all = stored + arrived(reads[0].outcome, reads[0].input);
        let rest = chunks_of_reads(reads.skip(1));
        assert(chunks.skip(1) =~= rest);
        law_leftover_is_incomplete(all);
        law_reads_hand_over_the_stream(leftover(all), reads.skip(1));
        law_cut_anywhere(all, joined(rest));
        assert(stored + joined(chunks) =~= all + joined(rest));
    }
}

/// One more read continues a series where the reads before it got to, unless one of them ended it:
/// then it has no part in it.
pub proof fn law_one_more_read(stored: Seq<u8>, reads: Seq<Read>, read: Read)
    ensures
        ({
            let left = stored_after_reads(stored, reads);
            let chunk = arrived(read.outcome, read.input);
            let more = reads.push(read);
            if status_of_reads(reads) is Some {
                &&& status_of_reads(more) == status_of_reads(reads)
                &&& ending_read(more) == ending_read(reads)
                &&& frames_of_reads(stored, more) == frames_of_reads(stored, reads)
                &&& stored_after_reads(stored, more) == left
                &&& chunks_of_reads(more) == chunks_of_reads(reads)
            } else {
                &&& status_of_reads(more) == ended_by(read.outcome)
                &&& ending_read(more) == if ended_by(read.outcome) is Some {
                    Some(read.outcome)
                } else {
                    None
                }
                &&& frames_of_reads(stored, more) == frames_of_reads(stored, reads) + frames(
                    left + chunk,
                )
                &&& stored_after_reads(stored, more) == leftover(left + chunk)
                &&& ended_by(read.outcome) is None ==> chunks_of_reads(more) == chunks_of_reads(
                    reads,
                ).push(chunk)
            }
        }),
    decreases reads.len(),
{
    let left = stored_after_reads(stored, reads);
    let chunk = arrived(read.outcome, read.input);
    let more = reads.push(read);
    if reads.len() == 0 {
        let none = Seq::<Read>::empty();
        assert(more.skip(1) =~= none);
        assert(status_of_reads(none) is None);
        assert(ending_read(none) is None);
        assert(frames_of_reads(leftover(stored + chunk), none) =~= Seq::empty());
        assert(stored_after_reads(leftover(stored + chunk), none) == leftover(stored + chunk));
        assert(chunks_of_reads(none) =~= Seq::empty());
        assert(frames_of_reads(stored, more) =~= frames(stored + chunk));
    } else {
        assert(more[0] == reads[0]);
        if ended_by(reads[0].outcome) is None {
            let all = stored + arrived(reads[0].outcome, reads[0].input);
            assert(more.skip(1) =~= reads.skip(1).push(read));
            law_one_more_read(leftover(all), reads.skip(1), read);
        }
    }
    if status_of_reads(reads) is None {
        assert(frames_of_reads(stored, more) =~= frames_of_reads(stored, reads) + frames(
            left + chunk,
        ));
        if ended_by(read.outcome) is None {
            assert(chunks_of_reads(more) =~= chunks_of_reads(reads).push(chunk));
        }
    }
}

/// The first read that ends a series decides its status: it is to wait for the next event exactly
/// when that read would have blocked.
pub proof fn law_ending_read_decides(reads: Seq<Read>)
    ensures
        status_of_reads(reads) == match ending_read(reads) {
            Some(outcome) => ended_by(outcome),
            None => None,
        },
        status_of_reads(reads) == Some(ReadStatus::WaitNextEvent) <==> ending_read(reads) == Some(
            ReadOutcome::WouldBlock,
        ),
        status_of_reads(reads) is None <==> ending_read(reads) is None,
    decreases reads.len(),
{
    if reads.len() > 0 && ended_by(reads[0].outcome) is None {
        law_ending_read_decides(reads.skip(1));
    }
}

/// Without the reads that were interrupted, a series of reads is just as good.
proof fn lemma_uninterrupted(stored: Seq<u8>, reads: Seq<Read>)
    requires
        !starts_with_frame(stored),
    ensures
        frames_of_reads(stored, uninterrupted(reads)) == frames_of_reads(stored, reads),
        stored_after_reads(stored, uninterrupted(reads)) == stored_after_reads(stored, reads),
        status_of_reads(uninterrupted(reads)) == status_of_reads(reads),
    decreases reads.len(),
{
    if reads.len() > 0 {
        let all = stored + arrived(reads[0].outcome, reads[0].input);
        law_leftover_is_incomplete(all);
        lemma_uninterrupted(leftover(all), reads.skip(1));
        if reads[0].outcome is Interrupted {
            assert(all =~= stored);
            assert(frames_of_reads(stored, reads) =~= frames_of_reads(stored, reads.skip(1)));
        } else {
            assert(uninterrupted(reads).skip(1) =~= uninterrupted(reads.skip(1)));
            assert(uninterrupted(reads)[0] == reads[0]);
        }
    }
}

/// An interrupted read is tried again and has no other effect: two series of reads that differ
/// only in such reads hand over the same frames, leave the same bytes and end in the same status.
pub proof fn law_interrupted_reads_have_no_effect(
    stored: Seq<u8>,
    reads: Seq<Read>,
    others: Seq<Read>,
)
    requires
        !starts_with_frame(stored),
        uninterrupted(reads) == uninterrupted(others),
    ensures
        frames_of_reads(stored, reads) == frames_of_reads(stored, others),
        stored_after_reads(stored, reads) == stored_after_reads(stored, others),
        status_of_reads(reads) == status_of_reads(others),
{
    lemma_uninterrupted(stored, reads);
    lemma_uninterrupted(stored, others);
}

/// Where decoding can go on with every chunk, it can go on after every read.
proof fn lemma_reads_admissible(stored: Seq<u8>, reads: Seq<Read>)
    requires
        chunks_admissible(stored, chunks_of_reads(reads)),
    ensures
        reads_admissible(stored, reads),
    decreases reads.len(),
{
    if reads.len() > 0 && ended_by(reads[0].outcome) is None {
        let chunk = arrived(reads[0].outcome, reads[0].input);
        assert(chunks_of_reads(reads).skip(1) =~= chunks_of_reads(reads.skip(1)));
        lemma_reads_admissible(leftover(stored + chunk), reads.skip(1));
    }
}

/// Whether sending `message` took the writes that end in `outcomes`, and ended in `Sent` with the
/// last of them.
pub open spec fn sent_by(message: Seq<u8>, outcomes: Seq<WriteOutcome>) -> bool {
    &&& outcomes.len() > 0
    &&& all_within_offer(message, 0, outcomes)
    &&& send_status(message, 0, outcomes.drop_last()) is None
    &&& status_after(message, sent_after_all(0, outcomes.drop_last()), outcomes.last()) == Some(
        SendStatus::Sent,
    )
}

/// What one side sends the other receives. Each of `messages` was sent, in the writes that
/// `writes` tells, and the reads of the other side bring exactly the bytes that were written, in
/// any pieces. Then every read can be decoded, as many frames are handed over as messages were
/// sent, each the frame of its message and ending with it, and nothing stays behind. If the
/// reads end because the next one would block, the status is to wait for the next event.
pub proof fn law_sent_messages_are_received(
    messages: Seq<Seq<u8>>,
    writes: Seq<Seq<WriteOutcome>>,
    reads: Seq<Read>,
)
    requires
        all_fit(messages),
        writes.len() == messages.len(),
        forall|i: int| 0 <= i < messages.len() ==> sent_by(#[trigger] messages[i], writes[i]),
        joined(chunks_of_reads(reads)) == joined(
            Seq::new(messages.len(), |i: int| transmitted(messages[i], 0, writes[i])),
        ),
    ensures
        reads_admissible(Seq::empty(), reads),
        frames_of_reads(Seq::empty(), reads).len() == messages.len(),
        forall|i: int|
            0 <= i < messages.len() ==> {
                let frame = #[trigger] frames_of_reads(Seq::empty(), reads)[i];
                &&& frame == frame_of(messages[i])
                &&& frame.skip(MAX_ENCODED_SIZE as int) == messages[i]
            },
        stored_after_reads(Seq::empty(), reads) == Seq::<u8>::empty(),
        ending_read(reads) == Some(ReadOutcome::WouldBlock) ==> status_of_reads(reads) == Some(
            ReadStatus::WaitNextEvent,
        ),
{
    let none = Seq::<u8>::empty();
    let sent = messages.map_values(|m: Seq<u8>| frame_of(m));
    let written = Seq::new(messages.len(), |i: int| transmitted(messages[i], 0, writes[i]));
    assert forall|i: int| 0 <= i < messages.len() implies written[i] == sent[i] by {
        assert(sent_by(messages[i], writes[i]));
        law_sent_is_the_whole_frame(messages[i], writes[i]);
    }
    assert(written =~= sent);
    let chunks = chunks_of_reads(reads);
    law_delivery(messages, chunks);
    lemma_reads_admissible(none, reads);
    law_reads_hand_over_the_stream(none, reads);
    law_chunks_do_not_matter(none, chunks);
    law_ending_read_decides(reads);
    assert(frames_of_reads(none, reads) == frames_of_chunks(none, chunks));
    assert forall|i: int| 0 <= i < messages.len() implies {
        let frame = #[trigger] frames_of_reads(none, reads)[i];
        &&& frame == frame_of(messages[i])
        &&& frame.skip(MAX_ENCODED_SIZE as int) == messages[i]
    } by {
        law_frame_declares_its_length(messages[i]);
    }
}

} // verus!
