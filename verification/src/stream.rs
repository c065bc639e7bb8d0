//! What a stream of bytes means: the frames that it holds, and the bytes that stay behind.
//!
//! A frame is a size header followed by a message. The header counts itself, so a frame is as
//! long as its header says.

use crate::size::{
    declared_size, law_size_bytes_spell_the_size, size_bytes, size_value, wire_size,
    MAX_ENCODED_SIZE,
};
use vstd::prelude::*;

verus! {

/// Whether `data` begins with a whole frame.
pub open spec fn starts_with_frame(data: Seq<u8>) -> bool {
    declared_size(data) matches Some(n) && 0 < n <= data.len()
}

/// Whether `data` is the beginning of a frame and not all of it: a complete header declares more
/// bytes than are there.
pub open spec fn unfinished(data: Seq<u8>) -> bool {
    declared_size(data) matches Some(n) ==> n > data.len()
}

/// The frames at the front of `data`, in order, headers included.
pub open spec fn frames(data: Seq<u8>) -> Seq<Seq<u8>>
    decreases data.len(),
{
    match declared_size(data) {
        Some(n) if 0 < n <= data.len() => {
            seq![data.take(n as int)] + frames(data.skip(n as int))
        },
        _ => Seq::empty(),
    }
}

/// What remains of `data` behind its frames.
pub open spec fn leftover(data: Seq<u8>) -> Seq<u8>
    decreases data.len(),
{
    match declared_size(data) {
        Some(n) if 0 < n <= data.len() => leftover(data.skip(n as int)),
        _ => data,
    }
}

/// Whether every size that is met while the frames of `data` are taken off is at least `least`.
pub open spec fn sizes_at_least(data: Seq<u8>, least: nat) -> bool
    decreases data.len(),
{
    match declared_size(data) {
        Some(n) => {
            &&& n >= least
            &&& 0 < n <= data.len() ==> sizes_at_least(data.skip(n as int), least)
        },
        None => true,
    }
}

/// The frame that carries `message`.
pub open spec fn frame_of(message: Seq<u8>) -> Seq<u8> {
    size_bytes(wire_size(message.len())) + message
}

/// Whether each of `messages` is short enough for its header to tell the length.
pub open spec fn all_fit(messages: Seq<Seq<u8>>) -> bool {
    forall|i: int|
        0 <= i < messages.len() ==> (#[trigger] messages[i]).len() + MAX_ENCODED_SIZE <= u32::MAX
}

/// The chunks of a stream, put together again.
pub open spec fn joined(chunks: Seq<Seq<u8>>) -> Seq<u8>
    decreases chunks.len(),
{
    if chunks.len() == 0 {
        Seq::empty()
    } else {
        chunks[0] + joined(chunks.skip(1))
    }
}

/// The frames that come out when `chunks` arrive one after the other behind the bytes `stored`.
pub open spec fn frames_of_chunks(stored: Seq<u8>, chunks: Seq<Seq<u8>>) -> Seq<Seq<u8>>
    decreases chunks.len(),
{
    if chunks.len() == 0 {
        Seq::empty()
    } else {
        frames(stored + chunks[0]) + frames_of_chunks(
            leftover(stored + chunks[0]),
            chunks.skip(1),
        )
    }
}

/// The bytes that stay behind when `chunks` arrive one after the other behind the bytes `stored`.
pub open spec fn leftover_of_chunks(stored: Seq<u8>, chunks: Seq<Seq<u8>>) -> Seq<u8>
    decreases chunks.len(),
{
    if chunks.len() == 0 {
        stored
    } else {
        leftover_of_chunks(leftover(stored + chunks[0]), chunks.skip(1))
    }
}

/// Whether decoding can go on with `data` behind the bytes `stored`: no frame declares a size of
/// zero, and a header that began in earlier data declares at least its own length.
pub open spec fn admissible(stored: Seq<u8>, data: Seq<u8>) -> bool {
    &&& sizes_at_least(stored + data, 1)
    &&& 0 < stored.len() < MAX_ENCODED_SIZE ==> (declared_size(stored + data) matches Some(n)
        ==> n >= MAX_ENCODED_SIZE)
}

/// Whether decoding can go on with each of `chunks` in turn, behind the bytes `stored`.
pub open spec fn chunks_admissible(stored: Seq<u8>, chunks: Seq<Seq<u8>>) -> bool
    decreases chunks.len(),
{
    chunks.len() > 0 ==> {
        &&& admissible(stored, chunks[0])
        &&& chunks_admissible(leftover(stored + chunks[0]), chunks.skip(1))
    }
}

/// Data is a whole frame's beginning, or an unfinished frame, by its first four bytes alone: a
/// whole frame is there once as many bytes are as these declare, and they declare at least one.
pub proof fn law_first_four_bytes_decide(data: Seq<u8>)
    ensures
        starts_with_frame(data) <==> {
            &&& data.len() >= 4
            &&& 0 < data[0] + 0x100 * data[1] + 0x1_0000 * data[2] + 0x100_0000 * data[3]
                <= data.len()
        },
        unfinished(data) <==> {
            ||| data.len() < 4
            ||| data[0] + 0x100 * data[1] + 0x1_0000 * data[2] + 0x100_0000 * data[3] > data.len()
        },
{
}

/// A size that fits the header is read back from the bytes that denote it.
pub proof fn law_size_round_trip(size: nat)
    requires
        size <= u32::MAX,
    ensures
        size_bytes(size).len() == MAX_ENCODED_SIZE,
        size_value(size_bytes(size)) == size,
{
    law_size_bytes_spell_the_size(size);
}

/// Bytes that follow do not change what a complete header declares.
proof fn lemma_declared_size_prefix(data: Seq<u8>, more: Seq<u8>)
    requires
        declared_size(data) is Some,
    ensures
        declared_size(data + more) == declared_size(data),
{
    assert((data + more).take(MAX_ENCODED_SIZE as int) =~= data.take(MAX_ENCODED_SIZE as int));
}

/// Decoding neither drops, nor adds, nor reorders a byte: the frames and what remains behind
/// them, put together, are the stream.
pub proof fn law_no_byte_lost(data: Seq<u8>)
    ensures
        joined(frames(data)) + leftover(data) == data,
    decreases data.len(),
{
    if starts_with_frame(data) {
        let n = declared_size(data)->0 as int;
        law_no_byte_lost(data.skip(n));
        assert(frames(data).skip(1) =~= frames(data.skip(n)));
        assert(frames(data)[0] == data.take(n));
        assert(data.take(n) + data.skip(n) =~= data);
        assert(joined(frames(data)) + leftover(data) =~= data.take(n) + (joined(
            frames(data.skip(n)),
        ) + leftover(data.skip(n))));
    } else {
        assert(joined(frames(data)) + leftover(data) =~= data);
    }
}

/// The frames are the stream cut into pieces: one after the other, and with what is left behind
/// them, they are the stream, byte for byte.
pub proof fn law_frames_and_leftover_are_the_stream(data: Seq<u8>)
    ensures
        frames(data).flatten() + leftover(data) == data,
    decreases data.len(),
{
    if starts_with_frame(data) {
        let n = declared_size(data)->0 as int;
        law_frames_and_leftover_are_the_stream(data.skip(n));
        assert(frames(data).drop_first() =~= frames(data.skip(n)));
        assert(frames(data).first() == data.take(n));
        assert(frames(data).flatten() + leftover(data) =~= data.take(n) + (frames(
            data.skip(n),
        ).flatten() + leftover(data.skip(n))));
        assert(data.take(n) + data.skip(n) =~= data);
    } else {
        assert(frames(data).flatten() + leftover(data) =~= data);
    }
}

/// Each frame is as long as the four bytes say that stand in the stream where the frames before it
/// end, and no frame is empty.
pub proof fn law_cuts_are_where_the_sizes_say(data: Seq<u8>, i: int)
    requires
        0 <= i < frames(data).len(),
    ensures
        ({
            let at = frames(data).take(i).flatten().len() as int;
            &&& at + 4 <= data.len()
            &&& frames(data)[i].len() == data[at] + 0x100 * data[at + 1] + 0x1_0000 * data[at + 2]
                + 0x100_0000 * data[at + 3]
            &&& 0 < frames(data)[i].len() <= data.len() - at
            &&& frames(data)[i] == data.subrange(at, at + frames(data)[i].len())
        }),
    decreases data.len(),
{
    let n = declared_size(data)->0 as int;
    let before = frames(data).take(i);
    if i == 0 {
        assert(before.flatten() =~= Seq::empty());
        assert(frames(data)[0] == data.take(n));
        assert(data.take(n) =~= data.subrange(0, n));
    } else {
        let rest = data.skip(n);
        law_cuts_are_where_the_sizes_say(rest, i - 1);
        assert(before.drop_first() =~= frames(rest).take(i - 1));
        assert(before.first() == data.take(n));
        let at = frames(rest).take(i - 1).flatten().len() as int;
        assert(before.flatten().len() == n + at);
        assert(frames(data)[i] == frames(rest)[i - 1]);
        assert(rest.subrange(at, at + frames(data)[i].len()) =~= data.subrange(
            n + at,
            n + at + frames(data)[i].len(),
        ));
    }
}

/// What is left behind the frames is not another one: its first four bytes are not all there, or
/// declare nothing, or declare more than is there.
pub proof fn law_cutting_goes_on_to_the_end(data: Seq<u8>)
    ensures
        ({
            let rest = leftover(data);
            let size = rest[0] + 0x100 * rest[1] + 0x1_0000 * rest[2] + 0x100_0000 * rest[3];
            rest.len() < 4 || size == 0 || size > rest.len()
        }),
{
    law_leftover_is_incomplete(data);
}

/// The sizes that are met while the frames are taken off are the lengths of the frames, and the one
/// that what is left behind declares, if it declares one.
pub proof fn law_sizes_met_are_those_of_the_frames(data: Seq<u8>, least: nat)
    ensures
        sizes_at_least(data, least) <==> {
            let rest = leftover(data);
            &&& forall|i: int|
                0 <= i < frames(data).len() ==> (#[trigger] frames(data)[i]).len() >= least
            &&& rest.len() >= 4 ==> rest[0] + 0x100 * rest[1] + 0x1_0000 * rest[2] + 0x100_0000
                * rest[3] >= least
        },
    decreases data.len(),
{
    if starts_with_frame(data) {
        let n = declared_size(data)->0 as int;
        let rest = data.skip(n);
        law_sizes_met_are_those_of_the_frames(rest, least);
        assert(frames(data)[0] == data.take(n));
        assert(forall|i: int|
            0 <= i < frames(rest).len() ==> #[trigger] frames(rest)[i] == frames(data)[i + 1]);
        assert(forall|i: int|
            1 <= i < frames(data).len() ==> #[trigger] frames(data)[i] == frames(rest)[i - 1]);
    }
}

/// Decoding can go on with any data, but for two: what is left behind the frames declares a size of
/// zero, or a header of which a part was stored declares less than its own four bytes.
pub proof fn law_what_can_be_decoded(stored: Seq<u8>, data: Seq<u8>)
    ensures
        admissible(stored, data) <==> {
            let all = stored + data;
            let rest = leftover(all);
            &&& rest.len() >= 4 ==> rest[0] + rest[1] + rest[2] + rest[3] > 0
            &&& 0 < stored.len() < 4 <= all.len() ==> all[0] >= 4 || all[1] + all[2] + all[3] > 0
        },
{
    let all = stored + data;
    law_sizes_met_are_those_of_the_frames(all, 1);
    assert forall|i: int| 0 <= i < frames(all).len() implies (
    #[trigger] frames(all)[i]).len() >= 1 by {
        law_cuts_are_where_the_sizes_say(all, i);
    }
}

/// No whole frame is left behind, and a second pass over what is left finds nothing.
pub proof fn law_leftover_is_incomplete(data: Seq<u8>)
    ensures
        !starts_with_frame(leftover(data)),
        frames(leftover(data)) == Seq::<Seq<u8>>::empty(),
        leftover(leftover(data)) == leftover(data),
    decreases data.len(),
{
    if starts_with_frame(data) {
        law_leftover_is_incomplete(data.skip(declared_size(data)->0 as int));
    }
}

/// An unfinished frame that more data does not complete is unfinished again, so that decoding can
/// go on with yet more data.
pub proof fn law_unfinished_until_whole(stored: Seq<u8>, data: Seq<u8>)
    requires
        unfinished(stored),
        declared_size(stored + data) matches Some(n) ==> n >= MAX_ENCODED_SIZE,
        !starts_with_frame(stored + data),
    ensures
        unfinished(stored + data),
{
}

/// Every frame is as long as its own header says.
pub proof fn law_frames_are_whole(data: Seq<u8>, i: int)
    requires
        0 <= i < frames(data).len(),
        sizes_at_least(data, MAX_ENCODED_SIZE as nat),
    ensures
        declared_size(frames(data)[i]) == Some(frames(data)[i].len()),
    decreases data.len(),
{
    let n = declared_size(data)->0 as int;
    if i == 0 {
        assert(data.take(n).take(MAX_ENCODED_SIZE as int) =~= data.take(MAX_ENCODED_SIZE as int));
        assert(frames(data)[0] == data.take(n));
    } else {
        law_frames_are_whole(data.skip(n), i - 1);
        assert(frames(data)[i] == frames(data.skip(n))[i - 1]);
    }
}

/// Where a stream is cut does not matter: taking the frames off the first part, and then off what
/// it left followed by the second part, is taking the frames off the whole.
pub proof fn law_cut_anywhere(first: Seq<u8>, second: Seq<u8>)
    ensures
        frames(first + second) == frames(first) + frames(leftover(first) + second),
        leftover(first + second) == leftover(leftover(first) + second),
    decreases first.len(),
{
    if starts_with_frame(first) {
        let n = declared_size(first)->0 as int;
        lemma_declared_size_prefix(first, second);
        assert((first + second).take(n) =~= first.take(n));
        assert((first + second).skip(n) =~= first.skip(n) + second);
        law_cut_anywhere(first.skip(n), second);
        assert(frames(first + second) =~= frames(first) + frames(leftover(first) + second));
    } else {
        assert(frames(first + second) =~= frames(first) + frames(leftover(first) + second));
    }
}

/// However a stream is cut into chunks, the frames that come out, and the bytes that stay behind,
/// are those of the whole stream.
pub proof fn law_chunks_do_not_matter(stored: Seq<u8>, chunks: Seq<Seq<u8>>)
    requires
        !starts_with_frame(stored),
    ensures
        frames_of_chunks(stored, chunks) == frames(stored + joined(chunks)),
        leftover_of_chunks(stored, chunks) == leftover(stored + joined(chunks)),
    decreases chunks.len(),
{
    if chunks.len() == 0 {
        assert(stored + joined(chunks) =~= stored);
    } else {
        let first = stored + chunks[0];
        let rest = joined(chunks.skip(1));
        law_leftover_is_incomplete(first);
        law_chunks_do_not_matter(leftover(first), chunks.skip(1));
        law_cut_anywhere(first, rest);
        assert(stored + joined(chunks) =~= first + rest);
    }
}

/// The frame of a message declares its own length, and the message stands behind the header.
pub proof fn law_frame_declares_its_length(message: Seq<u8>)
    requires
        message.len() + MAX_ENCODED_SIZE <= u32::MAX,
    ensures
        declared_size(frame_of(message)) == Some(frame_of(message).len()),
        frame_of(message).len() == message.len() + MAX_ENCODED_SIZE,
        frame_of(message).skip(MAX_ENCODED_SIZE as int) == message,
{
    law_size_round_trip(wire_size(message.len()));
    let frame = frame_of(message);
    assert(frame.take(MAX_ENCODED_SIZE as int) =~= size_bytes(wire_size(message.len())));
    assert(frame.skip(MAX_ENCODED_SIZE as int) =~= message);
}

/// A frame is four bytes followed by the message, whatever the message, and these four count
/// themselves and the message if its length leaves room for that.
pub proof fn law_frame_is_header_and_message(message: Seq<u8>)
    ensures
        ({
            let frame = frame_of(message);
            &&& frame.len() == message.len() + 4
            &&& frame.skip(4) == message
            &&& message.len() + 4 <= u32::MAX ==> frame[0] + 0x100 * frame[1] + 0x1_0000 * frame[2]
                + 0x100_0000 * frame[3] == message.len() + 4
        }),
{
    assert(frame_of(message).skip(4) =~= message);
    if message.len() + 4 <= u32::MAX {
        law_size_bytes_spell_the_size(wire_size(message.len()));
    }
}

/// Different messages travel in different frames.
pub proof fn law_frames_tell_messages_apart(message: Seq<u8>, other: Seq<u8>)
    requires
        frame_of(message) == frame_of(other),
    ensures
        message == other,
{
    law_frame_is_header_and_message(message);
    law_frame_is_header_and_message(other);
}

/// Putting chunks together is writing them one after the other.
pub proof fn law_joined_chunks_follow_each_other(chunks: Seq<Seq<u8>>)
    ensures
        joined(chunks) == chunks.flatten(),
    decreases chunks.len(),
{
    if chunks.len() > 0 {
        law_joined_chunks_follow_each_other(chunks.skip(1));
        assert(chunks.drop_first() =~= chunks.skip(1));
    }
}

/// One more chunk hands over the frames that it completes behind what the chunks before it left,
/// and decoding can go on with it exactly when it can go on with that.
pub proof fn law_one_more_chunk(stored: Seq<u8>, chunks: Seq<Seq<u8>>, chunk: Seq<u8>)
    ensures
        ({
            let left = leftover_of_chunks(stored, chunks);
            let more = chunks.push(chunk);
            &&& frames_of_chunks(stored, more) == frames_of_chunks(stored, chunks) + frames(
                left + chunk,
            )
            &&& leftover_of_chunks(stored, more) == leftover(left + chunk)
            &&& chunks_admissible(stored, more) <==> chunks_admissible(stored, chunks)
                && admissible(left, chunk)
        }),
    decreases chunks.len(),
{
    let more = chunks.push(chunk);
    if chunks.len() == 0 {
        assert(more.skip(1) =~= Seq::empty());
        assert(frames_of_chunks(leftover(stored + chunk), more.skip(1)) =~= Seq::empty());
        assert(leftover_of_chunks(leftover(stored + chunk), more.skip(1)) =~= leftover(
            stored + chunk,
        ));
        assert(chunks_admissible(leftover(stored + chunk), more.skip(1)));
        assert(frames_of_chunks(stored, more) =~= frames(stored + chunk));
    } else {
        assert(more.skip(1) =~= chunks.skip(1).push(chunk));
        law_one_more_chunk(leftover(stored + chunks[0]), chunks.skip(1), chunk);
        let left = leftover_of_chunks(stored, chunks);
        assert(frames_of_chunks(stored, more) =~= frames_of_chunks(stored, chunks) + frames(
            left + chunk,
        ));
    }
}

/// Splits the first frame off a stream of frames with `tail` behind them.
proof fn lemma_first_frame(messages: Seq<Seq<u8>>, tail: Seq<u8>)
    requires
        messages.len() > 0,
        messages[0].len() + MAX_ENCODED_SIZE <= u32::MAX,
    ensures
        ({
            let sent = messages.map_values(|m: Seq<u8>| frame_of(m));
            let rest = messages.skip(1).map_values(|m: Seq<u8>| frame_of(m));
            let data = joined(sent) + tail;
            let n = frame_of(messages[0]).len() as int;
            &&& sent == seq![frame_of(messages[0])] + rest
            &&& n >= MAX_ENCODED_SIZE
            &&& n <= data.len()
            &&& declared_size(data) == Some(n as nat)
            &&& data.take(n) == frame_of(messages[0])
            &&& data.skip(n) == joined(rest) + tail
        }),
{
    let sent = messages.map_values(|m: Seq<u8>| frame_of(m));
    let rest = messages.skip(1).map_values(|m: Seq<u8>| frame_of(m));
    let head = frame_of(messages[0]);
    let data = joined(sent) + tail;
    assert(sent.skip(1) =~= rest);
    assert(sent =~= seq![head] + rest);
    assert(data =~= head + (joined(rest) + tail));
    law_frame_declares_its_length(messages[0]);
    lemma_declared_size_prefix(head, joined(rest) + tail);
    assert(data.take(head.len() as int) =~= head);
    assert(data.skip(head.len() as int) =~= joined(rest) + tail);
}

/// What is sent comes out again: the frames of a stream of frames, with anything behind them, are
/// those frames, one for each message and in order, and then those of what is behind.
pub proof fn law_stream_round_trip(messages: Seq<Seq<u8>>, tail: Seq<u8>)
    requires
        all_fit(messages),
    ensures
        frames(joined(messages.map_values(|m: Seq<u8>| frame_of(m))) + tail)
            == messages.map_values(|m: Seq<u8>| frame_of(m)) + frames(tail),
        leftover(joined(messages.map_values(|m: Seq<u8>| frame_of(m))) + tail) == leftover(tail),
    decreases messages.len(),
{
    let sent = messages.map_values(|m: Seq<u8>| frame_of(m));
    if messages.len() == 0 {
        assert(joined(sent) + tail =~= tail);
        assert(sent + frames(tail) =~= frames(tail));
    } else {
        lemma_first_frame(messages, tail);
        law_stream_round_trip(messages.skip(1), tail);
        assert(frames(joined(sent) + tail) =~= sent + frames(tail));
    }
}

/// In a stream of frames every size covers its header, if it does so in what follows the frames.
pub proof fn law_sent_sizes_cover_the_header(messages: Seq<Seq<u8>>, tail: Seq<u8>)
    requires
        all_fit(messages),
        sizes_at_least(tail, MAX_ENCODED_SIZE as nat),
    ensures
        sizes_at_least(
            joined(messages.map_values(|m: Seq<u8>| frame_of(m))) + tail,
            MAX_ENCODED_SIZE as nat,
        ),
    decreases messages.len(),
{
    if messages.len() == 0 {
        assert(joined(messages.map_values(|m: Seq<u8>| frame_of(m))) + tail =~= tail);
    } else {
        lemma_first_frame(messages, tail);
        law_sent_sizes_cover_the_header(messages.skip(1), tail);
    }
}

/// Where the whole of a stream meets no small size, neither does its front, nor what the front
/// leaves followed by the rest.
proof fn lemma_sizes_of_parts(first: Seq<u8>, second: Seq<u8>, least: nat)
    requires
        sizes_at_least(first + second, least),
    ensures
        sizes_at_least(first, least),
        sizes_at_least(leftover(first) + second, least),
    decreases first.len(),
{
    if declared_size(first) is Some {
        lemma_declared_size_prefix(first, second);
    }
    if starts_with_frame(first) {
        let n = declared_size(first)->0 as int;
        assert((first + second).skip(n) =~= first.skip(n) + second);
        lemma_sizes_of_parts(first.skip(n), second, least);
    }
}

/// A smaller bound on the sizes holds wherever a larger one does.
proof fn lemma_sizes_weaken(data: Seq<u8>, least: nat, less: nat)
    requires
        sizes_at_least(data, least),
        less <= least,
    ensures
        sizes_at_least(data, less),
    decreases data.len(),
{
    if starts_with_frame(data) {
        lemma_sizes_weaken(data.skip(declared_size(data)->0 as int), least, less);
    }
}

/// A stream in which every size covers the header can be decoded however it is cut into chunks.
pub proof fn law_covered_headers_are_admissible(stored: Seq<u8>, chunks: Seq<Seq<u8>>)
    requires
        sizes_at_least(stored + joined(chunks), MAX_ENCODED_SIZE as nat),
    ensures
        chunks_admissible(stored, chunks),
    decreases chunks.len(),
{
    if chunks.len() > 0 {
        let first = stored + chunks[0];
        let rest = joined(chunks.skip(1));
        assert(stored + joined(chunks) =~= first + rest);
        lemma_sizes_of_parts(first, rest, MAX_ENCODED_SIZE as nat);
        lemma_sizes_weaken(first, MAX_ENCODED_SIZE as nat, 1);
        law_covered_headers_are_admissible(leftover(first), chunks.skip(1));
    }
}

/// Delivery: however the frames of `messages` are cut into chunks on their way, a decoder that
/// starts empty can take every chunk, hands over exactly those frames, in order, and keeps nothing.
pub proof fn law_delivery(messages: Seq<Seq<u8>>, chunks: Seq<Seq<u8>>)
    requires
        all_fit(messages),
        joined(chunks) == joined(messages.map_values(|m: Seq<u8>| frame_of(m))),
    ensures
        chunks_admissible(Seq::empty(), chunks),
        frames_of_chunks(Seq::empty(), chunks) == messages.map_values(|m: Seq<u8>| frame_of(m)),
        leftover_of_chunks(Seq::empty(), chunks) == Seq::<u8>::empty(),
{
    let none = Seq::<u8>::empty();
    let sent = messages.map_values(|m: Seq<u8>| frame_of(m));
    law_stream_round_trip(messages, none);
    law_sent_sizes_cover_the_header(messages, none);
    assert(joined(sent) + none =~= joined(sent));
    assert(none + joined(chunks) =~= joined(sent));
    law_covered_headers_are_admissible(none, chunks);
    law_chunks_do_not_matter(none, chunks);
    assert(sent + frames(none) =~= sent);
}

} // verus!
