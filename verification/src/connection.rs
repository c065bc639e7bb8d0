//! What a connection starts with.

use crate::config::{clone_keepalive, XfConnectConfig, XfListenConfig};
use crate::decoder::Decoder;
use socket2::TcpKeepalive;
use vstd::prelude::*;

verus! {

/// What a connection holds besides its socket.
pub struct Connection {
    /// Takes the frames off what arrives.
    pub decoder: Decoder,
    /// The keepalive settings to put on the socket.
    pub keepalive: Option<TcpKeepalive>,
}

/// What a listener holds besides its socket.
pub struct Listener {
    keepalive: Option<TcpKeepalive>,
}

impl Connection {
    /// Whether nothing has arrived yet.
    pub open spec fn is_fresh(self) -> bool {
        &&& self.decoder.wf()
        &&& self.decoder@ == Seq::<u8>::empty()
    }

    fn new(keepalive: Option<TcpKeepalive>) -> (connection: Connection)
        ensures
            connection.is_fresh(),
            connection.keepalive == keepalive,
    {
        Connection { decoder: Decoder::default(), keepalive }
    }

    /// A connection that this side opens.
    pub fn connect_with(config: XfConnectConfig) -> (connection: Connection)
        ensures
            connection.is_fresh(),
            connection.keepalive == config@,
            connection.decoder@ == Seq::<u8>::empty(),
            connection.decoder.wf(),
    {
        Connection::new(config.into_keepalive())
    }
}

impl Listener {
    /// The keepalive settings of the connections that come in, if they are enabled.
    pub closed spec fn keepalive(self) -> Option<TcpKeepalive> {
        self.keepalive
    }

    /// A listener with the settings of `config`.
    pub fn listen_with(config: XfListenConfig) -> (listener: Listener)
        ensures
            listener.keepalive() == config@,
    {
        Listener { keepalive: config.into_keepalive() }
    }

    /// A connection that comes in. It has the settings of the listener, and a decoder of its own,
    /// in which nothing is stored.
    pub fn accept(&self) -> (connection: Connection)
        ensures
            connection.is_fresh(),
            connection.keepalive == self.keepalive(),
            connection.decoder@ == Seq::<u8>::empty(),
            connection.decoder.wf(),
    {
        Connection::new(clone_keepalive(&self.keepalive))
    }
}

/// Every connection that a listener accepts starts with the settings with which the listener was
/// made, and with nothing stored: what arrives on one never reaches the frames of another.
pub proof fn law_accepted_connections_start_alike(
    config: XfListenConfig,
    listener: Listener,
    first: Connection,
    second: Connection,
)
    requires
        call_ensures(Listener::listen_with, (config,), listener),
        call_ensures(Listener::accept, (&listener,), first),
        call_ensures(Listener::accept, (&listener,), second),
    ensures
        first.keepalive == config@ && second.keepalive == config@,
        first.is_fresh() && second.is_fresh(),
        first.decoder@.len() == 0 && second.decoder@.len() == 0,
{
}

/// The keepalive settings that are enabled last are those that a connection gets, whichever side
/// opens it.
pub proof fn law_enabled_keepalive_reaches_the_connection(
    connect: XfConnectConfig,
    listen: XfListenConfig,
    settings: TcpKeepalive,
    connect_set: XfConnectConfig,
    listen_set: XfListenConfig,
    listener: Listener,
    opened: Connection,
    accepted: Connection,
)
    requires
        call_ensures(XfConnectConfig::with_keepalive, (connect, settings), connect_set),
        call_ensures(Connection::connect_with, (connect_set,), opened),
        call_ensures(XfListenConfig::with_keepalive, (listen, settings), listen_set),
        call_ensures(Listener::listen_with, (listen_set,), listener),
        call_ensures(Listener::accept, (&listener,), accepted),
    ensures
        opened.keepalive == Some(settings),
        accepted.keepalive == Some(settings),
        opened.decoder@.len() == 0 && accepted.decoder@.len() == 0,
{
}

} // verus!
