# xf_framed

Messages over a byte stream, each in a frame, and a queue of events with timers.

A frame is a header of four bytes and a message. The header holds the length of the whole frame,
itself included, least significant byte first.

## Layout

- `src/size.rs`: the header.
- `src/stream.rs`: what a stream of bytes means: its frames and what stays behind, and the laws.
  No byte is lost, and the way a stream is cut into pieces does not change what comes out.
- `src/decoder.rs`: takes the frames off a stream that arrives in pieces.
- `src/transfer.rs`: what a connection does after each read, write and accept.
- `src/reading.rs`: what a series of reads comes to, and that what one side sends the other
  receives.
- `src/connection.rs`: what a connection starts with.
- `src/config.rs`: keepalive settings.
- `src/command.rs`: the layout of the messages of the login client.
- `src/channel.rs`, `src/timer.rs`, `src/event_queue.rs`: events, sent at once or when their time
  has come.
- `app/`: the sockets and the threads around all that.

Everything under `src/` is verified with Verus. What is believed without proof stands in the items
marked `external_body` and `assume_specification`: each says which function of `integer_encoding`,
`crossbeam_channel` or `socket2` it speaks of, and what it claims.
