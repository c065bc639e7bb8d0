use xf_framed::decoder::Decoder;
use xf_framed::transfer::{
    accept_step, receive_step, AcceptOutcome, AcceptStep, ReadOutcome, ReadStatus, ReceiveStep,
    SendStatus, Sending, WriteOutcome, INPUT_BUFFER_SIZE,
};

fn send_in_pieces(message: &[u8], limit: usize) -> Vec<u8> {
    let mut wire: Vec<u8> = Vec::new();
    let mut sending = Sending::new(message);
    loop {
        let offer = sending.data_to_send();
        let taken = offer.len().min(limit);
        wire.extend_from_slice(&offer[..taken]);
        assert_eq!(sending.after_write(WriteOutcome::WouldBlock), None);
        match sending.after_write(WriteOutcome::Written(taken)) {
            Some(status) => {
                assert_eq!(status, SendStatus::Sent);
                return wire;
            }
            None => {}
        }
    }
}

#[test]
fn header_goes_out_before_the_message() {
    let mut sending = Sending::new(&[10, 11]);
    assert_eq!(sending.data_to_send(), &[6, 0, 0, 0]);
    assert_eq!(sending.after_write(WriteOutcome::Written(3)), None);
    assert_eq!(sending.data_to_send(), &[0]);
    assert_eq!(sending.after_write(WriteOutcome::Written(1)), None);
    assert_eq!(sending.data_to_send(), &[10, 11]);
    assert_eq!(sending.after_write(WriteOutcome::Written(1)), None);
    assert_eq!(sending.data_to_send(), &[11]);
    assert_eq!(sending.after_write(WriteOutcome::Written(1)), Some(SendStatus::Sent));
    assert!(sending.data_to_send().is_empty());
}

#[test]
fn whole_frame_goes_out_whatever_the_socket_takes() {
    for limit in 1..9 {
        assert_eq!(send_in_pieces(b"abc", limit), b"\x07\0\0\0abc".to_vec());
    }
}

#[test]
fn empty_message_is_sent_with_its_header() {
    assert_eq!(send_in_pieces(b"", 100), vec![4, 0, 0, 0]);
}

#[test]
fn write_of_nothing_changes_nothing() {
    let mut sending = Sending::new(&[1]);
    assert_eq!(sending.after_write(WriteOutcome::Written(0)), None);
    assert_eq!(sending.data_to_send(), &[5, 0, 0, 0]);
}

#[test]
fn failed_write_ends_sending() {
    let mut sending = Sending::new(&[1]);
    assert_eq!(sending.after_write(WriteOutcome::Failed), Some(SendStatus::ResourceNotFound));
}

#[test]
fn sent_message_is_received() {
    let wire = send_in_pieces(b"over the wire", 5);
    let mut decoder = Decoder::default();
    match receive_step(&mut decoder, ReadOutcome::Received(wire.len()), &wire) {
        ReceiveStep::Process(mut decoded) => {
            assert_eq!(&decoded.next_direct().unwrap()[4..], b"over the wire");
            assert!(decoded.next_direct().is_none());
        }
        _ => panic!("bytes that arrived are decoded"),
    }
}

#[test]
fn only_what_arrived_is_decoded() {
    let input = [5u8, 0, 0, 0, 1, 5, 0, 0, 0, 2];
    let mut decoder = Decoder::default();
    match receive_step(&mut decoder, ReadOutcome::Received(7), &input) {
        ReceiveStep::Process(mut decoded) => {
            assert_eq!(decoded.next_direct(), Some(&input[..5]));
            assert_eq!(decoded.next_direct(), None);
        }
        _ => panic!("bytes that arrived are decoded"),
    }
    assert_eq!(decoder.stored_size(), 2);
}

#[test]
fn reads_that_bring_nothing() {
    let mut decoder = Decoder::default();
    decoder.decode(&[9, 0, 0]);
    let ended = |step: ReceiveStep| match step {
        ReceiveStep::Finish(status) => Some(status),
        _ => None,
    };
    let step = receive_step(&mut decoder, ReadOutcome::Received(0), &[1, 2]);
    assert_eq!(ended(step), Some(ReadStatus::Disconnected));
    let step = receive_step(&mut decoder, ReadOutcome::WouldBlock, &[]);
    assert_eq!(ended(step), Some(ReadStatus::WaitNextEvent));
    let step = receive_step(&mut decoder, ReadOutcome::ConnectionReset, &[]);
    assert_eq!(ended(step), Some(ReadStatus::Disconnected));
    let step = receive_step(&mut decoder, ReadOutcome::Failed, &[]);
    assert_eq!(ended(step), Some(ReadStatus::Disconnected));
    let step = receive_step(&mut decoder, ReadOutcome::Interrupted, &[]);
    assert!(matches!(step, ReceiveStep::Retry));
    assert_eq!(decoder.stored_size(), 3);
}

#[test]
fn accepting_goes_on_until_it_would_block() {
    assert_eq!(accept_step(AcceptOutcome::Accepted), AcceptStep::Register);
    assert_eq!(accept_step(AcceptOutcome::Interrupted), AcceptStep::Retry);
    assert_eq!(accept_step(AcceptOutcome::WouldBlock), AcceptStep::Finish);
    assert_eq!(accept_step(AcceptOutcome::Failed), AcceptStep::Finish);
}

#[test]
fn input_buffer_is_as_long_as_the_largest_u16() {
    assert_eq!(INPUT_BUFFER_SIZE, u16::MAX as usize);
}

fn outcomes_of(message: &[u8], outcomes: &[WriteOutcome]) -> (Vec<u8>, Option<SendStatus>) {
    let mut wire: Vec<u8> = Vec::new();
    let mut sending = Sending::new(message);
    for outcome in outcomes {
        if let WriteOutcome::Written(taken) = outcome {
            wire.extend_from_slice(&sending.data_to_send()[..*taken]);
        }
        if let Some(status) = sending.after_write(*outcome) {
            return (wire, Some(status));
        }
    }
    (wire, None)
}

#[test]
fn refused_writes_change_neither_bytes_nor_status() {
    let smooth = [WriteOutcome::Written(4), WriteOutcome::Written(1), WriteOutcome::Written(1)];
    let delayed = [
        WriteOutcome::WouldBlock,
        WriteOutcome::Written(4),
        WriteOutcome::WouldBlock,
        WriteOutcome::WouldBlock,
        WriteOutcome::Written(1),
        WriteOutcome::Written(1),
    ];
    let sent = outcomes_of(b"ab", &smooth);
    assert_eq!(sent, (b"\x06\0\0\0ab".to_vec(), Some(SendStatus::Sent)));
    assert_eq!(outcomes_of(b"ab", &delayed), sent);
    let failed = [WriteOutcome::WouldBlock, WriteOutcome::Written(2), WriteOutcome::Failed];
    assert_eq!(
        outcomes_of(b"ab", &failed),
        (vec![6, 0], Some(SendStatus::ResourceNotFound))
    );
}

fn session(reads: &[(ReadOutcome, &[u8])]) -> (Vec<Vec<u8>>, usize, Option<ReadStatus>) {
    let mut decoder = Decoder::default();
    let mut out: Vec<Vec<u8>> = Vec::new();
    for (outcome, input) in reads {
        match receive_step(&mut decoder, *outcome, input) {
            ReceiveStep::Process(mut decoded) => {
                out.extend(decoded.completed.take());
                while let Some(frame) = decoded.next_direct() {
                    out.push(frame.to_vec());
                }
            }
            ReceiveStep::Retry => {}
            ReceiveStep::Finish(status) => return (out, decoder.stored_size(), Some(status)),
        }
    }
    (out, decoder.stored_size(), None)
}

#[test]
fn series_of_reads_hands_over_what_was_sent() {
    let mut wire = send_in_pieces(b"first", 3);
    wire.extend(send_in_pieces(b"", 1));
    wire.extend(send_in_pieces(b"third", 2));
    let frames = vec![
        send_in_pieces(b"first", 100),
        send_in_pieces(b"", 100),
        send_in_pieces(b"third", 100),
    ];
    let reads = [
        (ReadOutcome::Received(2), &wire[..2]),
        (ReadOutcome::Received(9), &wire[2..]),
        (ReadOutcome::Received(wire.len() - 11), &wire[11..]),
        (ReadOutcome::WouldBlock, &wire[..0]),
    ];
    assert_eq!(session(&reads), (frames, 0, Some(ReadStatus::WaitNextEvent)));
}

#[test]
fn interrupted_reads_have_no_effect() {
    let wire = send_in_pieces(b"word", 100);
    let nothing = &wire[..0];
    let smooth = [
        (ReadOutcome::Received(5), &wire[..5]),
        (ReadOutcome::Received(3), &wire[5..]),
        (ReadOutcome::ConnectionReset, nothing),
    ];
    let broken = [
        (ReadOutcome::Interrupted, nothing),
        (ReadOutcome::Received(5), &wire[..5]),
        (ReadOutcome::Interrupted, nothing),
        (ReadOutcome::Interrupted, &wire[..]),
        (ReadOutcome::Received(3), &wire[5..]),
        (ReadOutcome::Interrupted, nothing),
        (ReadOutcome::ConnectionReset, nothing),
    ];
    assert_eq!(session(&smooth), (vec![wire.clone()], 0, Some(ReadStatus::Disconnected)));
    assert_eq!(session(&broken), session(&smooth));
}

#[test]
fn series_without_an_ending_read_has_no_status() {
    assert_eq!(session(&[(ReadOutcome::Received(1), &[9])]), (Vec::new(), 1, None));
}
