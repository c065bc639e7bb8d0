use std::time::Duration;
use xf_framed::transfer::PendingStatus;
use xf_framed::connection::{Connection, Listener};
use xf_framed::command::{Command, Reply};
use xf_framed::config::{keepalive_to_apply, TcpKeepalive, XfConnectConfig, XfListenConfig};

fn keepalive(seconds: u64) -> TcpKeepalive {
    TcpKeepalive::new().with_time(Duration::from_secs(seconds))
}

#[test]
fn keepalive_is_off_unless_enabled() {
    assert!(XfConnectConfig::default().into_keepalive().is_none());
    assert!(XfListenConfig::default().into_keepalive().is_none());
}

#[test]
fn last_keepalive_counts() {
    let connect = XfConnectConfig::default().with_keepalive(keepalive(3)).with_keepalive(keepalive(7));
    let listen = XfListenConfig::default().with_keepalive(keepalive(3)).with_keepalive(keepalive(7));
    let expected = format!("{:?}", Some(keepalive(7)));
    assert_eq!(format!("{:?}", connect.clone().into_keepalive()), expected);
    assert_eq!(format!("{:?}", listen.clone().into_keepalive()), expected);
}

#[test]
fn keepalive_is_applied_once_the_connection_is_ready() {
    let enabled = Some(keepalive(4));
    assert!(keepalive_to_apply(PendingStatus::Ready, &enabled).is_some());
    assert!(keepalive_to_apply(PendingStatus::Incomplete, &enabled).is_none());
    assert!(keepalive_to_apply(PendingStatus::Disconnected, &enabled).is_none());
    assert!(keepalive_to_apply(PendingStatus::Ready, &None).is_none());
    assert!(keepalive_to_apply(PendingStatus::Incomplete, &None).is_none());
}

#[test]
fn login_message_is_laid_out() {
    let login = Command {
        msg_type: 2,
        ext_flag: 0,
        ext_flag1: 0,
        main_cmd: 0x02,
        sub_cmd: 0x01,
        body: b"0|123456|true|2023-12-29 00:00:02",
    };
    let mut expected = vec![2u8, 0, 0, 2, 0, 1, 0];
    expected.extend_from_slice(b"0|123456|true|2023-12-29 00:00:02");
    assert_eq!(login.to_bytes(), expected);
}

#[test]
fn command_is_read_back() {
    let command =
        Command { msg_type: 9, ext_flag: 8, ext_flag1: 7, main_cmd: 0x1234, sub_cmd: 0xfffe, body: b"body" };
    let bytes = command.to_bytes();
    assert_eq!(bytes[3..7], [0x34, 0x12, 0xfe, 0xff]);
    let reply = Reply::read(&bytes);
    assert_eq!(reply.main_cmd, 0x1234);
    assert_eq!(reply.sub_cmd, 0xfffe);
    assert_eq!(reply.body, b"body");
}

#[test]
fn command_without_body() {
    let reply = Reply::read(&[0, 0, 0, 1, 2, 3, 4]);
    assert_eq!(reply.main_cmd, 0x0201);
    assert_eq!(reply.sub_cmd, 0x0403);
    assert!(reply.body.is_empty());
}

#[test]
fn opened_connection_has_its_settings_and_an_empty_decoder() {
    let opened = Connection::connect_with(XfConnectConfig::default().with_keepalive(keepalive(9)));
    assert_eq!(format!("{:?}", opened.keepalive), format!("{:?}", Some(keepalive(9))));
    assert_eq!(opened.decoder.stored_size(), 0);
    assert!(Connection::connect_with(XfConnectConfig::default()).keepalive.is_none());
}

#[test]
fn accepted_connections_have_the_settings_of_the_listener() {
    let listener = Listener::listen_with(XfListenConfig::default().with_keepalive(keepalive(6)));
    let mut first = listener.accept();
    first.decoder.decode(&[9, 0, 0]);
    let second = listener.accept();
    let expected = format!("{:?}", Some(keepalive(6)));
    assert_eq!(format!("{:?}", first.keepalive), expected);
    assert_eq!(format!("{:?}", second.keepalive), expected);
    assert_eq!(first.decoder.stored_size(), 3);
    assert_eq!(second.decoder.stored_size(), 0);
}
