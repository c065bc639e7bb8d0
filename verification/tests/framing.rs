use xf_framed::decoder::{Decoded, Decoder};
use xf_framed::size::{decode_size, encode_size, MAX_ENCODED_SIZE};

fn frame(message: &[u8]) -> Vec<u8> {
    let mut buf = [0u8; MAX_ENCODED_SIZE];
    let mut bytes = encode_size(message, &mut buf).to_vec();
    bytes.extend_from_slice(message);
    bytes
}

fn direct<'a>(decoded: &mut Decoded<'a>) -> Vec<&'a [u8]> {
    let mut out: Vec<&'a [u8]> = Vec::new();
    while let Some(piece) = decoded.next_direct() {
        out.push(piece);
    }
    assert!(decoded.next_direct().is_none());
    out
}

fn frames(mut decoded: Decoded) -> Vec<Vec<u8>> {
    let mut out: Vec<Vec<u8>> = Vec::new();
    if let Some(first) = decoded.completed.take() {
        out.push(first);
    }
    for piece in direct(&mut decoded) {
        out.push(piece.to_vec());
    }
    out
}

fn feed(decoder: &mut Decoder, data: &[u8]) -> Vec<Vec<u8>> {
    assert!(decoder.can_decode(data));
    frames(decoder.decode(data))
}

#[test]
fn header_counts_itself_little_endian() {
    let mut buf = [9u8; MAX_ENCODED_SIZE];
    assert_eq!(encode_size(&[], &mut buf), &[4, 0, 0, 0]);
    assert_eq!(encode_size(&[1, 2, 3], &mut buf), &[7, 0, 0, 0]);
    assert_eq!(buf, [7, 0, 0, 0]);
    assert_eq!(encode_size(&vec![0u8; 252], &mut buf), &[0, 1, 0, 0]);
    assert_eq!(encode_size(&vec![0u8; 0x01_0200 - 4], &mut buf), &[0, 2, 1, 0]);
}

#[test]
fn header_is_read_back() {
    assert_eq!(decode_size(&[7, 0, 0, 0]), Some(7));
    assert_eq!(decode_size(&[1, 2, 3, 4, 99]), Some(0x0403_0201));
    assert_eq!(decode_size(&[255, 255, 255, 255]), Some(0xffff_ffff));
    let mut buf = [0u8; MAX_ENCODED_SIZE];
    for len in [0usize, 1, 251, 252, 253, 70_000] {
        let message = vec![0u8; len];
        assert_eq!(decode_size(encode_size(&message, &mut buf)), Some(len + 4));
    }
}

#[test]
fn incomplete_header_has_no_size() {
    assert_eq!(decode_size(&[]), None);
    assert_eq!(decode_size(&[7]), None);
    assert_eq!(decode_size(&[7, 0, 0]), None);
}

#[test]
fn new_decoder_is_empty() {
    let mut decoder = Decoder::default();
    assert_eq!(decoder.stored_size(), 0);
    assert!(feed(&mut decoder, &[]).is_empty());
    assert_eq!(decoder.stored_size(), 0);
}

#[test]
fn one_message_in_one_piece() {
    let mut decoder = Decoder::default();
    let mut decoded = decoder.decode(&[6, 0, 0, 0, 42, 43]);
    assert!(decoded.completed.is_none());
    assert_eq!(direct(&mut decoded), vec![&[6u8, 0, 0, 0, 42, 43][..]]);
    assert_eq!(decoder.stored_size(), 0);
}

#[test]
fn empty_message_is_a_bare_header() {
    let mut decoder = Decoder::default();
    assert_eq!(feed(&mut decoder, &[4, 0, 0, 0]), vec![vec![4, 0, 0, 0]]);
    assert_eq!(decoder.stored_size(), 0);
}

#[test]
fn several_messages_in_one_piece() {
    let mut decoder = Decoder::default();
    let mut data = frame(b"one");
    data.extend(frame(b""));
    data.extend(frame(b"three"));
    assert_eq!(feed(&mut decoder, &data), vec![frame(b"one"), frame(b""), frame(b"three")]);
    assert_eq!(decoder.stored_size(), 0);
}

#[test]
fn incomplete_message_is_stored_until_more_arrives() {
    let mut decoder = Decoder::default();
    let data = frame(b"hello");
    assert!(feed(&mut decoder, &data[..6]).is_empty());
    assert_eq!(decoder.stored_size(), 6);
    assert!(feed(&mut decoder, &data[6..8]).is_empty());
    assert_eq!(decoder.stored_size(), 8);
    let mut last = decoder.decode(&data[8..]);
    assert_eq!(last.completed, Some(data.clone()));
    assert!(direct(&mut last).is_empty());
    assert_eq!(decoder.stored_size(), 0);
}

#[test]
fn completed_message_is_followed_by_those_of_the_same_piece() {
    let mut decoder = Decoder::default();
    let mut data = frame(b"first");
    data.extend(frame(b"second"));
    data.extend(&frame(b"third")[..5]);
    assert!(feed(&mut decoder, &data[..2]).is_empty());
    assert_eq!(decoder.stored_size(), 2);
    assert_eq!(feed(&mut decoder, &data[2..]), vec![frame(b"first"), frame(b"second")]);
    assert_eq!(decoder.stored_size(), 5);
}

#[test]
fn every_cut_gives_the_same_messages() {
    let messages: Vec<&[u8]> = vec![b"a", b"", b"some longer text", b"xyz"];
    let sent: Vec<Vec<u8>> = messages.iter().map(|m| frame(m)).collect();
    let stream: Vec<u8> = sent.concat();
    for first in 0..=stream.len() {
        for second in first..=stream.len() {
            let mut decoder = Decoder::default();
            let mut out = feed(&mut decoder, &stream[..first]);
            out.extend(feed(&mut decoder, &stream[first..second]));
            out.extend(feed(&mut decoder, &stream[second..]));
            assert_eq!(out, sent);
            assert_eq!(decoder.stored_size(), 0);
        }
    }
}

#[test]
fn byte_by_byte() {
    let sent = vec![frame(b"ping"), frame(b"pong")];
    let mut decoder = Decoder::default();
    let mut out: Vec<Vec<u8>> = Vec::new();
    for byte in sent.concat() {
        out.extend(feed(&mut decoder, &[byte]));
    }
    assert_eq!(out, sent);
}

#[test]
fn no_byte_is_lost() {
    let data = [5u8, 0, 0, 0, 1, 9, 0, 0, 0, 2, 3];
    let mut decoder = Decoder::default();
    let out = feed(&mut decoder, &data);
    assert_eq!(out.concat(), data[..5].to_vec());
    assert_eq!(decoder.stored_size(), data.len() - 5);
}

#[test]
fn each_frame_is_as_long_as_it_says() {
    let mut data = frame(b"12345");
    data.extend(frame(b"6"));
    let mut decoder = Decoder::default();
    for piece in feed(&mut decoder, &data) {
        assert_eq!(decode_size(&piece), Some(piece.len()));
    }
}

#[test]
fn message_stands_behind_the_header() {
    let mut decoder = Decoder::default();
    let out = feed(&mut decoder, &frame(b"payload"));
    assert_eq!(&out[0][MAX_ENCODED_SIZE..], b"payload");
}

#[test]
fn short_size_in_one_piece_cuts_the_stream_there() {
    let mut decoder = Decoder::default();
    assert_eq!(feed(&mut decoder, &[2, 0, 0, 0, 7]), vec![vec![2, 0]]);
    assert_eq!(decoder.stored_size(), 3);
}

#[test]
fn sizes_that_cannot_be_decoded() {
    let decoder = Decoder::default();
    assert!(!decoder.can_decode(&[0, 0, 0, 0]));
    assert!(!decoder.can_decode(&[4, 0, 0, 0, 0, 0, 0, 0, 1]));
    assert!(decoder.can_decode(&[0, 0, 0]));
    assert!(decoder.can_decode(&[9, 0, 0, 0]));
    assert!(decoder.can_decode(&[3, 0, 0, 0]));

    let mut began = Decoder::default();
    began.decode(&[3, 0]);
    assert!(began.can_decode(&[0]));
    assert!(!began.can_decode(&[0, 0]));
    assert!(began.can_decode(&[0, 1]));

    let mut waiting = Decoder::default();
    waiting.decode(&[6, 0, 0, 0, 1]);
    assert!(waiting.can_decode(&[]));
    assert!(waiting.can_decode(&[2, 4, 0, 0, 0]));
    assert!(!waiting.can_decode(&[2, 0, 0, 0, 0]));
}

#[test]
fn only_a_frame_that_began_earlier_has_memory_of_its_own() {
    let mut data = frame(b"x");
    data.extend(frame(b"y"));
    let mut decoder = Decoder::default();
    let mut whole = decoder.decode(&data);
    assert!(whole.completed.is_none());
    let pieces = direct(&mut whole);
    assert_eq!(pieces.len(), 2);
    assert_eq!(pieces[0].as_ptr(), data.as_ptr());
    assert_eq!(pieces[1].as_ptr(), data[5..].as_ptr());
    decoder.decode(&data[..1]);
    let mut begun = decoder.decode(&data[1..]);
    assert_eq!(begun.completed, Some(frame(b"x")));
    assert_eq!(direct(&mut begun), vec![&data[5..]]);
}
