//! The layout of the messages that a client and its server exchange: a message type, two
//! extension flags, two command numbers and a body.

use integer_encoding::FixedInt;
use vstd::prelude::*;
use vstd::slice::slice_subrange;

verus! {

/// Length in bytes of what stands in front of the body.
pub const COMMAND_HEADER_SIZE: usize = 7;

/// A message to be sent.
pub struct Command<'a> {
    /// The type of the message.
    pub msg_type: u8,
    /// The first extension flag.
    pub ext_flag: u8,
    /// The second extension flag.
    pub ext_flag1: u8,
    /// The group of the command.
    pub main_cmd: u16,
    /// The command within its group.
    pub sub_cmd: u16,
    /// The body.
    pub body: &'a [u8],
}

/// What is read of a message that arrived.
pub struct Reply<'a> {
    /// The group of the command.
    pub main_cmd: u16,
    /// The command within its group.
    pub sub_cmd: u16,
    /// The body.
    pub body: &'a [u8],
}

/// The number that two bytes denote, least significant byte first.
pub open spec fn command_number(bytes: Seq<u8>) -> nat {
    (bytes[0] + 0x100 * bytes[1]) as nat
}

/// The two bytes of `number`, least significant byte first.
pub open spec fn command_bytes(number: nat) -> Seq<u8> {
    seq![(number % 0x100) as u8, (number / 0x100 % 0x100) as u8]
}

/// `integer_encoding`'s `FixedInt::decode_fixed` for `u16`: it reads a two byte slice as a number,
/// least significant byte first, on every machine. It must not be handed a slice of another
/// length.
#[verifier::external_body]
fn decode_fixed_u16(src: &[u8]) -> (number: u16)
    requires
        src@.len() == 2,
    ensures
        number == command_number(src@),
{
    u16::decode_fixed(src)
}

/// Appends the bytes of `number`, least significant byte first.
fn put_u16_le(buf: &mut Vec<u8>, number: u16)
    ensures
        final(buf)@ == old(buf)@ + command_bytes(number as nat),
{
    buf.push((number % 0x100) as u8);
    buf.push((number / 0x100) as u8);
    assert(buf@ =~= old(buf)@ + command_bytes(number as nat));
}

impl<'a> Command<'a> {
    /// The message as it is sent.
    pub open spec fn bytes(self) -> Seq<u8> {
        seq![self.msg_type, self.ext_flag, self.ext_flag1] + command_bytes(self.main_cmd as nat)
            + command_bytes(self.sub_cmd as nat) + self.body@
    }

    /// Lays the message out.
    pub fn to_bytes(&self) -> (bytes: Vec<u8>)
        ensures
            bytes@ == self.bytes(),
            bytes@.len() == 7 + self.body@.len(),
            bytes@[0] == self.msg_type,
            bytes@[1] == self.ext_flag,
            bytes@[2] == self.ext_flag1,
            bytes@[3] + 0x100 * bytes@[4] == self.main_cmd,
            bytes@[5] + 0x100 * bytes@[6] == self.sub_cmd,
            bytes@.skip(7) == self.body@,
    {
        let mut buf: Vec<u8> = Vec::new();
        buf.push(self.msg_type);
        buf.push(self.ext_flag);
        buf.push(self.ext_flag1);
        put_u16_le(&mut buf, self.main_cmd);
        put_u16_le(&mut buf, self.sub_cmd);
        buf.extend_from_slice(self.body);
        assert(buf@ =~= self.bytes());
        assert(buf@.skip(7) =~= self.body@);
        buf
    }
}

impl<'a> Reply<'a> {
    /// Whether this is what `message` says.
    pub open spec fn reads(self, message: Seq<u8>) -> bool {
        &&& self.main_cmd == command_number(message.subrange(3, 5))
        &&& self.sub_cmd == command_number(message.subrange(5, 7))
        &&& self.body@ == message.skip(COMMAND_HEADER_SIZE as int)
    }

    /// Reads a message.
    pub fn read(message: &'a [u8]) -> (reply: Reply<'a>)
        requires
            message@.len() >= COMMAND_HEADER_SIZE,
        ensures
            reply.reads(message@),
            reply.main_cmd == message@[3] + 0x100 * message@[4],
            reply.sub_cmd == message@[5] + 0x100 * message@[6],
            reply.body@ == message@.skip(7),
    {
        let main_cmd: u16 = decode_fixed_u16(slice_subrange(message, 3, 5));
        let sub_cmd: u16 = decode_fixed_u16(slice_subrange(message, 5, 7));
        let (_, body) = message.split_at(COMMAND_HEADER_SIZE);
        Reply { main_cmd, sub_cmd, body }
    }
}

/// Every part of a message has its place in the layout: the type and the flags a byte each, the
/// commands two bytes each, least significant byte first, and the body all that follows.
pub proof fn law_every_part_has_its_place(command: Command, bytes: Vec<u8>)
    requires
        call_ensures(Command::to_bytes, (&command,), bytes),
    ensures
        bytes@ == command.bytes(),
        bytes@.len() == 7 + command.body@.len(),
        bytes@[0] == command.msg_type,
        bytes@[1] == command.ext_flag,
        bytes@[2] == command.ext_flag1,
        bytes@[3] + 0x100 * bytes@[4] == command.main_cmd,
        bytes@[5] + 0x100 * bytes@[6] == command.sub_cmd,
        forall|i: int|
            0 <= i < command.body@.len() ==> #[trigger] bytes@[i + 7] == command.body@[i],
{
}

/// Messages that differ in anything, be it the type, a flag, a command or the body, are laid out
/// differently.
pub proof fn law_layouts_tell_messages_apart(command: Command, other: Command)
    requires
        command.bytes() == other.bytes(),
    ensures
        command.msg_type == other.msg_type,
        command.ext_flag == other.ext_flag,
        command.ext_flag1 == other.ext_flag1,
        command.main_cmd == other.main_cmd,
        command.sub_cmd == other.sub_cmd,
        command.body@ == other.body@,
{
    law_layout_holds_every_part(command);
    law_layout_holds_every_part(other);
    assert(command.bytes().skip(7) == other.bytes().skip(7));
}

/// The type, the flags, the commands and the body can be told from the bytes of a message.
pub proof fn law_layout_holds_every_part(command: Command)
    ensures
        command.bytes().len() == 7 + command.body@.len(),
        command.bytes()[0] == command.msg_type,
        command.bytes()[1] == command.ext_flag,
        command.bytes()[2] == command.ext_flag1,
        command.bytes()[3] + 0x100 * command.bytes()[4] == command.main_cmd,
        command.bytes()[5] + 0x100 * command.bytes()[6] == command.sub_cmd,
        command.bytes().skip(7) == command.body@,
{
    assert(command.bytes().skip(7) =~= command.body@);
}

/// What is read of a message are its fourth to seventh byte, as two commands, and all the bytes
/// that follow these, as the body.
pub proof fn law_reading_takes_commands_and_body<'a>(message: &'a [u8], reply: Reply<'a>)
    requires
        message@.len() >= 7,
        call_ensures(Reply::read, (message,), reply),
    ensures
        reply.main_cmd == message@[3] + 0x100 * message@[4],
        reply.sub_cmd == message@[5] + 0x100 * message@[6],
        reply.body@.len() == message@.len() - 7,
        forall|i: int|
            0 <= i < reply.body@.len() ==> #[trigger] reply.body@[i] == message@[i + 7],
{
}

/// A message that is laid out and read again, by the functions that do so, gives back its commands
/// and its body.
pub proof fn law_sent_command_is_read<'a>(
    command: Command,
    bytes: Vec<u8>,
    message: &'a [u8],
    reply: Reply<'a>,
)
    requires
        call_ensures(Command::to_bytes, (&command,), bytes),
        message@ == bytes@,
        call_ensures(Reply::read, (message,), reply),
    ensures
        reply.main_cmd == command.main_cmd,
        reply.sub_cmd == command.sub_cmd,
        reply.body@ == command.body@,
{
}

/// A message that is laid out and read again gives back its commands and its body.
pub proof fn law_command_round_trip(command: Command, reply: Reply)
    requires
        reply.reads(command.bytes()),
    ensures
        reply.main_cmd == command.main_cmd,
        reply.sub_cmd == command.sub_cmd,
        reply.body@ == command.body@,
{
    let bytes = command.bytes();
    assert(bytes.subrange(3, 5) =~= command_bytes(command.main_cmd as nat));
    assert(bytes.subrange(5, 7) =~= command_bytes(command.sub_cmd as nat));
    assert(bytes.skip(COMMAND_HEADER_SIZE as int) =~= command.body@);
}

} // verus!
