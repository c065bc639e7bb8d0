//! Settings of connections and listeners.

pub use socket2::TcpKeepalive;

use crate::transfer::PendingStatus;
use vstd::prelude::*;

verus! {

/// `socket2`'s set of TCP keepalive parameters. It is carried from the configuration to the socket
/// and never looked into.
#[verifier::external_type_specification]
#[verifier::external_body]
pub struct ExTcpKeepalive(socket2::TcpKeepalive);

/// `Clone::clone` of `socket2`'s `TcpKeepalive`, which is derived: it copies every parameter.
pub assume_specification[ <socket2::TcpKeepalive as Clone>::clone ](
    keepalive: &socket2::TcpKeepalive,
) -> (copy: socket2::TcpKeepalive)
    ensures
        copy == *keepalive,
;

/// Settings of a connection that this side opens.
#[derive(Debug)]
pub struct XfConnectConfig {
    keepalive: Option<TcpKeepalive>,
}

/// Settings of a listener.
#[derive(Debug)]
pub struct XfListenConfig {
    keepalive: Option<TcpKeepalive>,
}

impl View for XfConnectConfig {
    type V = Option<TcpKeepalive>;

    /// The keepalive settings, if they are enabled.
    closed spec fn view(&self) -> Option<TcpKeepalive> {
        self.keepalive
    }
}

impl View for XfListenConfig {
    type V = Option<TcpKeepalive>;

    /// The keepalive settings of the connections that come in, if they are enabled.
    closed spec fn view(&self) -> Option<TcpKeepalive> {
        self.keepalive
    }
}

impl Default for XfConnectConfig {
    /// No keepalive.
    fn default() -> (config: XfConnectConfig)
        ensures
            config@ is None,
    {
        XfConnectConfig { keepalive: None }
    }
}

impl Default for XfListenConfig {
    /// No keepalive.
    fn default() -> (config: XfListenConfig)
        ensures
            config@ is None,
    {
        XfListenConfig { keepalive: None }
    }
}

impl Clone for XfConnectConfig {
    /// The same settings again.
    fn clone(&self) -> (copy: Self)
        ensures
            copy@ == self@,
    {
        XfConnectConfig { keepalive: clone_keepalive(&self.keepalive) }
    }
}

impl Clone for XfListenConfig {
    /// The same settings again.
    fn clone(&self) -> (copy: Self)
        ensures
            copy@ == self@,
    {
        XfListenConfig { keepalive: clone_keepalive(&self.keepalive) }
    }
}

impl XfConnectConfig {
    /// Enables TCP keepalive settings on the socket.
    pub fn with_keepalive(self, keepalive: TcpKeepalive) -> (config: Self)
        ensures
            config@ == Some(keepalive),
    {
        let mut config = self;
        config.keepalive = Some(keepalive);
        config
    }

    /// The keepalive settings to put on the socket.
    pub fn into_keepalive(self) -> (keepalive: Option<TcpKeepalive>)
        ensures
            keepalive == self@,
    {
        self.keepalive
    }
}

impl XfListenConfig {
    /// Enables TCP keepalive settings on client connection sockets.
    pub fn with_keepalive(self, keepalive: TcpKeepalive) -> (config: Self)
        ensures
            config@ == Some(keepalive),
    {
        let mut config = self;
        config.keepalive = Some(keepalive);
        config
    }

    /// The keepalive settings to put on the sockets of the connections that come in.
    pub fn into_keepalive(self) -> (keepalive: Option<TcpKeepalive>)
        ensures
            keepalive == self@,
    {
        self.keepalive
    }
}

/// The same keepalive settings again, as every connection that a listener accepts gets them.
pub fn clone_keepalive(keepalive: &Option<TcpKeepalive>) -> (copy: Option<TcpKeepalive>)
    ensures
        copy == *keepalive,
{
    match keepalive {
        Some(settings) => Some(settings.clone()),
        None => None,
    }
}

/// The keepalive settings that a pending connection puts on its socket: those it has, once the
/// connection is ready.
pub fn keepalive_to_apply(
    status: PendingStatus,
    keepalive: &Option<TcpKeepalive>,
) -> (settings: Option<&TcpKeepalive>)
    ensures
        match settings {
            Some(applied) => status is Ready && *keepalive == Some(*applied),
            None => !(status is Ready) || *keepalive is None,
        },
{
    match status {
        PendingStatus::Ready => match keepalive {
            Some(settings) => Some(settings),
            None => None,
        },
        PendingStatus::Incomplete => None,
        PendingStatus::Disconnected => None,
    }
}

/// Settings are put on the socket of a connection exactly when it is ready and has some, and then
/// those, whatever they are.
pub proof fn law_keepalive_is_applied_once_ready(
    status: PendingStatus,
    keepalive: Option<TcpKeepalive>,
    settings: Option<&TcpKeepalive>,
)
    requires
        call_ensures(keepalive_to_apply, (status, &keepalive), settings),
    ensures
        settings is Some <==> status is Ready && keepalive is Some,
        settings matches Some(applied) ==> keepalive == Some(*applied),
{
}

} // verus!
