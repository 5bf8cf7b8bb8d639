//! The TLS session of a connection.
//!
//! rustls runs the handshake. What it answers depends on the keys that it
//! draws and on the peer, so nothing is promised of it. [`tls_source`] names
//! what a session was created for, and [`tls_exchanges`] all that has passed to
//! and from it; the connection's contracts say what becomes of each answer.

use rustls::pki_types::ServerName;
use rustls::quic::Connection as QuicTls;
use rustls::quic::{self, Keys};
use rustls::{ClientConfig, ServerConfig};
use std::sync::Arc;
use vstd::prelude::*;

verus! {

#[verifier::external_type_specification]
#[verifier::external_body]
pub struct ExQuicTls(QuicTls);

#[verifier::external_type_specification]
#[verifier::external_body]
pub struct ExServerName<'a>(ServerName<'a>);

#[verifier::external_type_specification]
#[verifier::external_body]
pub struct ExClientConfig(ClientConfig);

#[verifier::external_type_specification]
#[verifier::external_body]
pub struct ExServerConfig(ServerConfig);

/// Keys that TLS hands out as the handshake goes on.
pub enum KeyChange {
    /// Keys for the handshake space.
    Handshake { keys: Keys },
    /// Keys for 1-RTT data.
    OneRtt { keys: Keys },
}

/// What a session was created for.
pub enum TlsOrigin {
    Client { config: Arc<ClientConfig>, name: ServerName<'static> },
    Server { config: Arc<ServerConfig> },
}

/// One exchange with TLS.
pub enum TlsEvent {
    /// Handshake data was handed to TLS, which took or refused it.
    Read { data: Seq<u8>, outcome: Result<(), rustls::Error> },
    /// TLS handed out handshake data, and perhaps new keys.
    Write { out: Seq<u8>, change: Option<KeyChange> },
}

/// The server name that a text stands for, if it is one.
pub uninterp spec fn server_name_of(text: Seq<char>) -> Option<ServerName<'static>>;

/// `ServerName::try_from`: the name that the text stands for.
#[verifier::external_body]
pub(crate) fn parse_server_name(text: &str) -> (r: Option<ServerName<'static>>)
    ensures
        r == server_name_of(text@),
{
    ServerName::try_from(text.to_string()).ok()
}

/// What a TLS connection was created for.
pub uninterp spec fn tls_source(conn: &QuicTls) -> TlsOrigin;

/// Every exchange that a TLS connection has had, in order.
pub uninterp spec fn tls_exchanges(conn: &QuicTls) -> Seq<TlsEvent>;

/// `quic::ClientConnection::new`, for QUIC version 1 and no transport
/// parameters: a connection for the given configuration and name, before any
/// exchange. Whether it could be created depends on the configuration and on
/// the machine's source of randomness, and is left unsaid.
#[verifier::external_body]
fn new_client(config: Arc<ClientConfig>, name: ServerName<'static>) -> (r: Result<
    QuicTls,
    rustls::Error,
>)
    ensures
        r matches Ok(conn) ==> {
            &&& tls_source(&conn) == (TlsOrigin::Client { config, name })
            &&& tls_exchanges(&conn) == Seq::<TlsEvent>::empty()
        },
{
    let client = quic::ClientConnection::new(config, quic::Version::V1, name, Vec::new())?;
    Ok(QuicTls::Client(client))
}

/// Why a configuration cannot serve QUIC, if it cannot.
pub uninterp spec fn server_refusal(config: &ServerConfig) -> Option<rustls::Error>;

/// `quic::ServerConnection::new`, for QUIC version 1 and no transport
/// parameters: a connection for the given configuration, before any exchange.
/// It is created unless the configuration refuses it, which its protocol
/// versions, cipher suites, early data limit and fragment size alone decide.
#[verifier::external_body]
fn new_server(config: Arc<ServerConfig>) -> (r: Result<QuicTls, rustls::Error>)
    ensures
        match server_refusal(&*config) {
            None => r is Ok,
            Some(e) => r == Err::<QuicTls, _>(e),
        },
        r matches Ok(conn) ==> {
            &&& tls_source(&conn) == (TlsOrigin::Server { config })
            &&& tls_exchanges(&conn) == Seq::<TlsEvent>::empty()
        },
{
    let server = quic::ServerConnection::new(config, quic::Version::V1, Vec::new())?;
    Ok(QuicTls::Server(server))
}

/// `quic::Connection::read_hs`: hands the data to TLS. What TLS makes of it
/// depends on all that it has seen before, and is left unsaid.
#[verifier::external_body]
fn tls_read(conn: &mut QuicTls, data: &[u8]) -> (r: Result<(), rustls::Error>)
    ensures
        tls_source(final(conn)) == tls_source(old(conn)),
        tls_exchanges(final(conn)) == tls_exchanges(old(conn)).push(
            TlsEvent::Read { data: data@, outcome: r },
        ),
{
    conn.read_hs(data)
}

/// `quic::Connection::write_hs`: takes what TLS has to send, and any new keys.
/// What that is depends on all that it has seen before, and is left unsaid.
#[verifier::external_body]
fn tls_write(conn: &mut QuicTls) -> (r: (Vec<u8>, Option<KeyChange>))
    ensures
        tls_source(final(conn)) == tls_source(old(conn)),
        tls_exchanges(final(conn)) == tls_exchanges(old(conn)).push(
            TlsEvent::Write { out: r.0@, change: r.1 },
        ),
{
    let mut out = Vec::new();
    let change = match conn.write_hs(&mut out) {
        Some(quic::KeyChange::Handshake { keys }) => Some(KeyChange::Handshake { keys }),
        Some(quic::KeyChange::OneRtt { keys, .. }) => Some(KeyChange::OneRtt { keys }),
        None => None,
    };
    (out, change)
}

/// A TLS session.
pub struct TlsSession {
    conn: QuicTls,
}

impl TlsSession {
    /// What the session was created for.
    pub closed spec fn origin(&self) -> TlsOrigin {
        tls_source(&self.conn)
    }

    /// Every exchange so far, in order.
    pub closed spec fn log(&self) -> Seq<TlsEvent> {
        tls_exchanges(&self.conn)
    }

    /// A client's session with the server of the given name.
    pub fn client(config: Arc<ClientConfig>, name: ServerName<'static>) -> (r: Result<
        Self,
        rustls::Error,
    >)
        ensures
            r matches Ok(s) ==> s.origin() == (TlsOrigin::Client { config, name }) && s.log()
                == Seq::<TlsEvent>::empty(),
    {
        Self::begun(new_client(config, name))
    }

    /// A server's session.
    pub fn server(config: Arc<ServerConfig>) -> (r: Result<Self, rustls::Error>)
        ensures
            match server_refusal(&*config) {
                None => {
                    &&& r matches Ok(s)
                    &&& s.origin() == (TlsOrigin::Server { config })
                    &&& s.log() == Seq::<TlsEvent>::empty()
                },
                Some(e) => r == Err::<TlsSession, _>(e),
            },
    {
        Self::begun(new_server(config))
    }

    /// The session that comes of creating its TLS connection, or the error
    /// where that failed.
    fn begun(created: Result<QuicTls, rustls::Error>) -> (r: Result<Self, rustls::Error>)
        ensures
            match created {
                Ok(conn) => {
                    &&& r matches Ok(s)
                    &&& s.origin() == tls_source(&conn)
                    &&& s.log() == tls_exchanges(&conn)
                },
                Err(e) => r == Err::<TlsSession, _>(e),
            },
    {
        match created {
            Ok(conn) => Ok(TlsSession { conn }),
            Err(e) => Err(e),
        }
    }

    /// Hands handshake data to TLS.
    pub fn read_hs(&mut self, data: &[u8]) -> (r: Result<(), rustls::Error>)
        ensures
            final(self).origin() == old(self).origin(),
            final(self).log() == old(self).log().push(
                TlsEvent::Read { data: data@, outcome: r },
            ),
    {
        tls_read(&mut self.conn, data)
    }

    /// Takes handshake data, and perhaps new keys, from TLS.
    pub fn write_hs(&mut self) -> (r: (Vec<u8>, Option<KeyChange>))
        ensures
            final(self).origin() == old(self).origin(),
            final(self).log() == old(self).log().push(
                TlsEvent::Write { out: r.0@, change: r.1 },
            ),
    {
        tls_write(&mut self.conn)
    }
}

} // verus!
