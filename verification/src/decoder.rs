//! Takes frames off a byte stream that arrives in pieces.

use crate::size::{declared_size, decode_size, MAX_ENCODED_SIZE};
use crate::stream::{
    admissible, frames, law_frames_and_leftover_are_the_stream, leftover, sizes_at_least,
    starts_with_frame, unfinished,
};
use vstd::prelude::*;
use vstd::slice::slice_to_vec;

verus! {

/// The frames that one call of [`Decoder::decode`] completes.
///
/// Each frame is handed over whole, its size header included.
pub struct Decoded<'a> {
    /// The frame that earlier calls began, if this call completed it. It comes first.
    pub completed: Option<Vec<u8>>,
    /// The data of this call from the next frame on. What stands behind its last frame is stored.
    pub rest: &'a [u8],
}

impl<'a> Decoded<'a> {
    /// The frames that the data of this call holds.
    pub open spec fn direct(self) -> Seq<Seq<u8>> {
        frames(self.rest@)
    }

    /// The frames in the order in which they were sent.
    pub open spec fn frames(self) -> Seq<Seq<u8>> {
        match self.completed {
            Some(frame) => seq![frame@] + self.direct(),
            None => self.direct(),
        }
    }

    /// Hands out the next of the frames that the data of this call holds, as a part of that data.
    pub fn next_direct(&mut self) -> (frame: Option<&'a [u8]>)
        ensures
            match frame {
                Some(bytes) => {
                    &&& old(self).direct().len() > 0
                    &&& bytes@ == old(self).direct()[0]
                    &&& final(self).direct() == old(self).direct().skip(1)
                },
                None => {
                    &&& old(self).direct().len() == 0
                    &&& final(self).direct() == old(self).direct()
                },
            },
            final(self).completed == old(self).completed,
            frame is Some <==> starts_with_frame(old(self).rest@),
            frame matches Some(bytes) ==> {
                let size = declared_size(old(self).rest@)->0 as int;
                &&& bytes@ == old(self).rest@.take(size)
                &&& final(self).rest@ == old(self).rest@.skip(size)
            },
            frame is None ==> final(self).rest@ == old(self).rest@,
    {
        if let Some(size) = decode_size(self.rest) {
            if 0 < size && size <= self.rest.len() {
                let (bytes, rest) = self.rest.split_at(size);
                self.rest = rest;
                assert(old(self).direct().skip(1) =~= self.direct());
                return Some(bytes);
            }
        }
        None
    }
}

/// Takes the frames off a stream of bytes, whatever the pieces in which it arrives.
pub struct Decoder {
    stored: Vec<u8>,
}

impl View for Decoder {
    type V = Seq<u8>;

    /// The bytes of the frame that has begun and is not complete.
    closed spec fn view(&self) -> Seq<u8> {
        self.stored@
    }
}

impl Default for Decoder {
    /// Creates a new decoder.
    /// It will only reserve memory in cases where decoding needs to keep data among messages.
    fn default() -> (decoder: Decoder)
        ensures
            decoder@ == Seq::<u8>::empty(),
            decoder.wf(),
    {
        Decoder { stored: Vec::new() }
    }
}

impl Decoder {
    /// What is stored is never a whole frame: a header declares more bytes than are there.
    pub open spec fn wf(self) -> bool {
        unfinished(self@)
    }

    /// Passes over the frames at the front of `data` and stores what remains behind them.
    fn try_decode(&mut self, data: &[u8])
        requires
            sizes_at_least(data@, 1),
        ensures
            final(self)@ == old(self)@ + leftover(data@),
    {
        let mut next_data: &[u8] = data;
        loop
            invariant_except_break
                self@ == old(self)@,
            invariant
                sizes_at_least(next_data@, 1),
                leftover(data@) == leftover(next_data@),
            ensures
                self@ == old(self)@ + leftover(data@),
            decreases next_data@.len(),
        {
            if let Some(expected_size) = decode_size(next_data) {
                if next_data.len() >= expected_size {
                    let (_, not_decoded) = next_data.split_at(expected_size);
                    if not_decoded.is_empty() {
                        assert(leftover(not_decoded@) == not_decoded@);
                        assert(old(self)@ + not_decoded@ =~= old(self)@);
                        break;
                    }
                    next_data = not_decoded;
                    continue;
                }
            }
            self.stored.extend_from_slice(next_data);
            break;
        }
    }

    /// Adds to what is stored as much of `data` as the frame that has begun still needs. Once the
    /// frame is whole, hands it over with what remains of `data`.
    fn store_and_decoded_data<'a, 'b>(&'b mut self, data: &'a [u8]) -> (decoded: Option<
        (&'b [u8], &'a [u8]),
    >)
        requires
            old(self).wf(),
            declared_size(old(self)@ + data@) matches Some(n) ==> n >= MAX_ENCODED_SIZE,
        ensures
            match decoded {
                Some((frame, remaining)) => {
                    let n = declared_size(old(self)@ + data@)->0 as int;
                    &&& starts_with_frame(old(self)@ + data@)
                    &&& frame@ == (old(self)@ + data@).take(n)
                    &&& remaining@ == (old(self)@ + data@).skip(n)
                    &&& final(self)@ == frame@
                },
                None => {
                    &&& !starts_with_frame(old(self)@ + data@)
                    &&& final(self)@ == old(self)@ + data@
                    &&& final(self).wf()
                },
            },
    {
        let ghost all = self@ + data@;
        // Process frame header
        let (expected_size, data): (usize, &'a [u8]) = match decode_size(self.stored.as_slice()) {
            Some(size) => {
                proof {
                    assert(all.take(MAX_ENCODED_SIZE as int) =~= self@.take(
                        MAX_ENCODED_SIZE as int,
                    ));
                }
                (size, data)
            },
            None => {
                // we append at most the potential data needed to decode the size
                let missing: usize = MAX_ENCODED_SIZE - self.stored.len();
                let max_remaining: usize = if missing < data.len() {
                    missing
                } else {
                    data.len()
                };
                let (to_store, remaining) = data.split_at(max_remaining);
                self.stored.extend_from_slice(to_store);
                proof {
                    assert(self@ =~= all.take(self@.len() as int));
                    assert(all =~= self@ + remaining@);
                }
                match decode_size(self.stored.as_slice()) {
                    // Now we know the size
                    Some(size) => {
                        assert(all.take(MAX_ENCODED_SIZE as int) =~= self@.take(
                            MAX_ENCODED_SIZE as int,
                        ));
                        (size, remaining)
                    },
                    // We still don't know the size (data was too small)
                    None => {
                        assert(self@ =~= all);
                        return None;
                    },
                }
            },
        };

        // At this point we know at least the expected size of the frame.
        let remaining: usize = expected_size - self.stored.len();
        if data.len() < remaining {
            // We need more data to decoder
            self.stored.extend_from_slice(data);
            assert(self@ =~= all);
            None
        } else {
            // We can complete a message here
            let (to_store, remaining) = data.split_at(remaining);
            self.stored.extend_from_slice(to_store);
            assert(self@ =~= all.take(expected_size as int));
            assert(remaining@ =~= all.skip(expected_size as int));
            Some((self.stored.as_slice(), remaining))
        }
    }

    /// Tries to decode data without reserving any memory, directly from `data`.
    /// The result gives each decoded frame.
    /// If `data` is not enough for decoding a message, the data will be stored
    /// until more data is decoded (more successive calls to this function).
    /// Only a frame that earlier data began is handed over in memory of its own.
    pub fn decode<'a>(&mut self, data: &'a [u8]) -> (decoded: Decoded<'a>)
        requires
            old(self).wf(),
            admissible(old(self)@, data@),
        ensures
            decoded.frames() == frames(old(self)@ + data@),
            decoded.completed is Some <==> old(self)@.len() > 0 && starts_with_frame(
                old(self)@ + data@,
            ),
            old(self)@.len() == 0 ==> decoded.rest@ == data@,
            decoded.completed is Some ==> decoded.rest@ == (old(self)@ + data@).skip(
                declared_size(old(self)@ + data@)->0 as int,
            ),
            final(self)@ == leftover(old(self)@ + data@),
            final(self).wf(),
            decoded.completed matches Some(frame) ==> {
                let size = declared_size(old(self)@ + data@)->0;
                &&& frame@ == (old(self)@ + data@).take(size as int)
                &&& frame@.len() == size
                &&& frame@.len() >= old(self)@.len()
                &&& declared_size(frame@) == Some(frame@.len())
                &&& seq![frame@] + frames(decoded.rest@) == frames(old(self)@ + data@)
                &&& final(self)@ == leftover(decoded.rest@)
            },
            decoded.completed is None && old(self)@.len() > 0 ==> {
                &&& decoded.rest@ == Seq::<u8>::empty()
                &&& frames(old(self)@ + data@) == Seq::<Seq<u8>>::empty()
                &&& final(self)@ == old(self)@ + data@
            },
            old(self)@.len() == 0 ==> final(self)@ == leftover(data@),
    {
        proof {
            lemma_leftover_awaits_more(self@ + data@);
        }
        if self.stored.is_empty() {
            assert(self@ + data@ =~= data@);
            self.try_decode(data);
            Decoded { completed: None, rest: data }
        } else {
            // There was already data in the decoder
            let ghost all = self@ + data@;
            proof {
                if self@.len() >= MAX_ENCODED_SIZE {
                    assert(all.take(MAX_ENCODED_SIZE as int) =~= self@.take(
                        MAX_ENCODED_SIZE as int,
                    ));
                }
            }
            let remaining: &'a [u8] = match self.store_and_decoded_data(data) {
                Some((_, remaining)) => remaining,
                None => {
                    let (_, nothing) = data.split_at(data.len());
                    assert(nothing@ =~= Seq::empty());
                    return Decoded { completed: None, rest: nothing };
                },
            };
            let mut completed: Vec<u8> = Vec::new();
            std::mem::swap(&mut completed, &mut self.stored);
            self.try_decode(remaining);
            Decoded { completed: Some(completed), rest: remaining }
        }
    }

    /// Tells whether [`Decoder::decode`] may be called with `data`. It may not if decoding meets a
    /// size of zero, which would take nothing off the stream, or if a header that began in earlier
    /// data declares less than its own length.
    pub fn can_decode(&self, data: &[u8]) -> (yes: bool)
        requires
            self.wf(),
        ensures
            yes == admissible(self@, data@),
    {
        let ghost all = self@ + data@;
        if self.stored.is_empty() {
            assert(all =~= data@);
            sizes_advance(data)
        } else {
            let size: Option<usize> = match decode_size(self.stored.as_slice()) {
                Some(size) => {
                    assert(all.take(MAX_ENCODED_SIZE as int) =~= self@.take(
                        MAX_ENCODED_SIZE as int,
                    ));
                    Some(size)
                },
                None => {
                    let missing: usize = MAX_ENCODED_SIZE - self.stored.len();
                    if data.len() < missing {
                        None
                    } else {
                        let mut header = slice_to_vec(self.stored.as_slice());
                        header.extend_from_slice(data.split_at(missing).0);
                        assert(header@ =~= all.take(MAX_ENCODED_SIZE as int));
                        assert(header@.take(MAX_ENCODED_SIZE as int) =~= header@);
                        decode_size(header.as_slice())
                    }
                },
            };
            match size {
                None => true,
                Some(n) => if n < MAX_ENCODED_SIZE {
                    false
                } else if n - self.stored.len() > data.len() {
                    true
                } else {
                    let rest = data.split_at(n - self.stored.len()).1;
                    assert(rest@ =~= all.skip(n as int));
                    sizes_advance(rest)
                },
            }
        }
    }

    /// Returns the bytes len stored in this decoder.
    /// It can include both, the padding bytes and the data message bytes.
    /// After decoding a message, its bytes are removed from the decoder.
    pub fn stored_size(&self) -> (size: usize)
        ensures
            size == self@.len(),
    {
        self.stored.len()
    }
}

/// Tells whether every size that is met while the frames of `data` are taken off is positive.
fn sizes_advance(data: &[u8]) -> (yes: bool)
    ensures
        yes == sizes_at_least(data@, 1),
{
    let mut next_data: &[u8] = data;
    loop
        invariant
            sizes_at_least(data@, 1) == sizes_at_least(next_data@, 1),
        decreases next_data@.len(),
    {
        match decode_size(next_data) {
            None => {
                return true;
            },
            Some(size) => {
                if size == 0 {
                    return false;
                }
                if size > next_data.len() {
                    return true;
                }
                next_data = next_data.split_at(size).1;
            },
        }
    }
}

/// The frames that a call hands over are the one that it completed, if it did, and behind it those
/// that stand in the rest of its data: as many, and each where it stands.
pub proof fn law_completed_frame_comes_first(decoded: Decoded)
    ensures
        decoded.direct() == frames(decoded.rest@),
        decoded.completed is None ==> decoded.frames() == frames(decoded.rest@),
        decoded.completed matches Some(frame) ==> {
            &&& decoded.frames().len() == 1 + frames(decoded.rest@).len()
            &&& decoded.frames()[0] == frame@
            &&& decoded.frames().skip(1) == frames(decoded.rest@)
        },
{
    if decoded.completed is Some {
        assert(decoded.frames().skip(1) =~= frames(decoded.rest@));
    }
}

/// The frames that a call hands over, put together with what it then stores, are what was stored
/// before followed by the data of the call. `decoded` and `stored` are any results that
/// [`Decoder::decode`] can have.
pub proof fn law_decoding_passes_every_byte_on(
    before: Seq<u8>,
    data: Seq<u8>,
    decoded: Decoded,
    stored: Seq<u8>,
)
    requires
        decoded.frames() == frames(before + data),
        stored == leftover(before + data),
    ensures
        ({
            let direct = frames(decoded.rest@).flatten();
            let first = match decoded.completed {
                Some(frame) => frame@,
                None => Seq::empty(),
            };
            first + direct + stored == before + data
        }),
{
    law_frames_and_leftover_are_the_stream(before + data);
    law_completed_frame_comes_first(decoded);
    if let Some(frame) = decoded.completed {
        assert(decoded.frames().drop_first() =~= frames(decoded.rest@));
        assert(decoded.frames().first() == frame@);
    } else {
        assert(Seq::<u8>::empty() + frames(decoded.rest@).flatten() =~= frames(
            decoded.rest@,
        ).flatten());
    }
}

/// A decoder is at rest between frames: it stores nothing that is a whole frame.
pub proof fn law_stored_bytes_await_more(decoder: Decoder)
    ensures
        decoder.wf() <==> {
            let stored = decoder@;
            ||| stored.len() < 4
            ||| stored[0] + 0x100 * stored[1] + 0x1_0000 * stored[2] + 0x100_0000 * stored[3]
                > stored.len()
        },
{
}

/// Where no size is zero, a header that is left behind declares more bytes than are there.
proof fn lemma_leftover_awaits_more(data: Seq<u8>)
    requires
        sizes_at_least(data, 1),
    ensures
        unfinished(leftover(data)),
    decreases data.len(),
{
    if starts_with_frame(data) {
        lemma_leftover_awaits_more(data.skip(declared_size(data)->0 as int));
    }
}

} // verus!
