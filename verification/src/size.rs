//! The size header that stands in front of every frame.

use integer_encoding::FixedInt;
use vstd::prelude::*;

verus! {

/// Length in bytes of the size header.
pub const MAX_ENCODED_SIZE: usize = 4;

/// The number that four bytes denote, least significant byte first.
pub open spec fn size_value(bytes: Seq<u8>) -> nat {
    (bytes[0] + 0x100 * bytes[1] + 0x1_0000 * bytes[2] + 0x100_0000 * bytes[3]) as nat
}

/// The four bytes of `size`, least significant byte first.
pub open spec fn size_bytes(size: nat) -> Seq<u8> {
    seq![
        (size % 0x100) as u8,
        (size / 0x100 % 0x100) as u8,
        (size / 0x1_0000 % 0x100) as u8,
        (size / 0x100_0000 % 0x100) as u8,
    ]
}

/// The size that the header of a message of `len` bytes declares. It counts the header itself,
/// and only the low 32 bits of the length enter it.
pub open spec fn wire_size(len: nat) -> nat {
    len % 0x1_0000_0000 + MAX_ENCODED_SIZE as nat
}

/// The size that `data` declares, once its header is complete.
pub open spec fn declared_size(data: Seq<u8>) -> Option<nat> {
    if data.len() < MAX_ENCODED_SIZE {
        None
    } else {
        Some(size_value(data.take(MAX_ENCODED_SIZE as int)))
    }
}

/// `integer_encoding`'s `FixedInt::encode_fixed` for `u32`: it overwrites a four byte slice with
/// the bytes of `size`, least significant byte first, on every machine.
#[verifier::external_body]
fn encode_fixed_u32(size: u32, buf: &mut [u8; MAX_ENCODED_SIZE])
    ensures
        final(buf)@ == size_bytes(size as nat),
{
    size.encode_fixed(buf);
}

/// `integer_encoding`'s `FixedInt::decode_fixed` for `u32`: it reads a four byte slice as a
/// number, least significant byte first, on every machine. It must not be handed a slice of
/// another length.
#[verifier::external_body]
fn decode_fixed_u32(src: &[u8]) -> (size: u32)
    requires
        src@.len() == MAX_ENCODED_SIZE,
    ensures
        size == size_value(src@),
{
    u32::decode_fixed(src)
}

/// Writes the size header of `message` into `buf` and hands it back.
pub fn encode_size<'a>(message: &[u8], buf: &'a mut [u8; MAX_ENCODED_SIZE]) -> (encoded: &'a [u8])
    requires
        wire_size(message@.len()) <= u32::MAX,
    ensures
        encoded@ == size_bytes(wire_size(message@.len())),
        final(buf)@ == size_bytes(wire_size(message@.len())),
        final(buf)@ == encoded@,
        encoded@.len() == 4,
        encoded@[0] + 0x100 * encoded@[1] + 0x1_0000 * encoded@[2] + 0x100_0000 * encoded@[3]
            == message@.len() % 0x1_0000_0000 + 4,
{
    let len: u64 = message.len() as u64;
    proof {
        assert(len as u32 == len % 0x1_0000_0000) by (bit_vector);
    }
    let size: u32 = len as u32 + 4;
    proof {
        law_size_bytes_spell_the_size(size as nat);
    }
    encode_fixed_u32(size, buf);
    buf.as_slice()
}

/// Reads the size that `data` declares: `None` while the header is incomplete.
pub fn decode_size(data: &[u8]) -> (size: Option<usize>)
    ensures
        match size {
            Some(n) => declared_size(data@) == Some(n as nat),
            None => declared_size(data@) is None,
        },
        size is None <==> data@.len() < 4,
        size matches Some(n) ==> n == data@[0] + 0x100 * data@[1] + 0x1_0000 * data@[2]
            + 0x100_0000 * data@[3],
{
    if data.len() < MAX_ENCODED_SIZE {
        None
    } else {
        let (header, _) = data.split_at(MAX_ENCODED_SIZE);
        Some(decode_fixed_u32(header) as usize)
    }
}

/// The header of a frame is its first four bytes, least significant byte first: `data` declares a
/// size exactly when it holds four bytes, and then the one that these four denote.
pub proof fn law_first_four_bytes_declare_the_size(data: Seq<u8>)
    ensures
        declared_size(data) is Some <==> data.len() >= 4,
        declared_size(data) matches Some(n) ==> n == data[0] + 0x100 * data[1] + 0x1_0000 * data[2]
            + 0x100_0000 * data[3],
        data.len() == 4 ==> declared_size(data) == Some(size_value(data)),
{
    if data.len() == 4 {
        assert(data.take(4) =~= data);
    }
}

/// The bytes of a size denote that size, and no other: there are four of them, least significant
/// byte first.
pub proof fn law_size_bytes_spell_the_size(size: nat)
    requires
        size <= u32::MAX,
    ensures
        size_bytes(size).len() == 4,
        size_bytes(size)[0] + 0x100 * size_bytes(size)[1] + 0x1_0000 * size_bytes(size)[2]
            + 0x100_0000 * size_bytes(size)[3] == size,
{
    assert(size / 0x100 / 0x100 == size / 0x1_0000);
    assert(size / 0x100 / 0x100 / 0x100 == size / 0x100_0000);
}

/// A header counts the message and its own four bytes, whatever the length of the message, as long
/// as the sum fits. Of the length of a longer message it counts the low 32 bits.
pub proof fn law_header_counts_itself_and_the_message(len: nat)
    ensures
        len + 4 <= u32::MAX ==> wire_size(len) == len + 4,
        4 <= wire_size(len) < 0x1_0000_0004,
        (len + 4 - wire_size(len)) % 0x1_0000_0000 == 0,
{
}

/// Two messages whose headers are the same are equally long, as long as the headers can tell.
pub proof fn law_headers_tell_lengths_apart(len: nat, other: nat)
    requires
        len + 4 <= u32::MAX,
        other + 4 <= u32::MAX,
        size_bytes(wire_size(len)) == size_bytes(wire_size(other)),
    ensures
        len == other,
{
    law_size_bytes_spell_the_size(wire_size(len));
    law_size_bytes_spell_the_size(wire_size(other));
}

} // verus!
