//! The TLS session of a connection, as rustls drives it.

use std::sync::Arc;

use vstd::prelude::*;

use rustls::client::{ClientConfig, ClientConnectionData, UnbufferedClientConnection};
use rustls::pki_types::ServerName;
use rustls::unbuffered::{
    ConnectionState, EncodeTlsData, ReadTraffic, TransmitTlsData, WriteTraffic,
};

verus! {

/// The size of a record buffer: it holds any TLS record whole.
pub const TLS_BUF_CAP: usize = 32_768;

/// What an encrypted request can be longer than the request.
pub const TLS_OVERHEAD: usize = 128;

/// rustls's client configuration.
#[verifier::external_type_specification]
#[verifier::external_body]
pub struct ExClientConfig(ClientConfig);

/// The name a server's certificate has to carry.
#[verifier::external_type_specification]
#[verifier::external_body]
pub struct ExServerName<'a>(ServerName<'a>);

/// What rustls's states are generic over, on the client's side.
#[verifier::external_type_specification]
#[verifier::external_body]
pub struct ExClientConnectionData(ClientConnectionData);

/// A client session that leaves all buffers to its caller.
#[verifier::external_type_specification]
#[verifier::external_body]
pub struct ExUnbufferedClientConnection(UnbufferedClientConnection);

/// Decrypted records wait to be read.
#[verifier::external_type_specification]
#[verifier::external_body]
#[verifier::reject_recursive_types(Data)]
pub struct ExReadTraffic<'c, 'i, Data>(ReadTraffic<'c, 'i, Data>);

/// A handshake record waits to be encoded.
#[verifier::external_type_specification]
#[verifier::external_body]
#[verifier::reject_recursive_types(Data)]
pub struct ExEncodeTlsData<'c, Data>(EncodeTlsData<'c, Data>);

/// Encoded records wait to be sent.
#[verifier::external_type_specification]
#[verifier::external_body]
#[verifier::reject_recursive_types(Data)]
pub struct ExTransmitTlsData<'c, Data>(TransmitTlsData<'c, Data>);

/// Application data can be encrypted.
#[verifier::external_type_specification]
#[verifier::external_body]
#[verifier::reject_recursive_types(Data)]
pub struct ExWriteTraffic<'c, Data>(WriteTraffic<'c, Data>);

/// What a session wants next.
pub enum TlsState<'c, 'i> {
    Read(ReadTraffic<'c, 'i, ClientConnectionData>),
    Encode(EncodeTlsData<'c, ClientConnectionData>),
    Transmit(TransmitTlsData<'c, ClientConnectionData>),
    Write(WriteTraffic<'c, ClientConnectionData>),
    /// Nothing: more input, or no more of anything.
    Wait,
}

/// The server name that a host is read as, if it is one.
pub uninterp spec fn server_name_of(host: Seq<char>) -> Option<ServerName<'static>>;

/// The configuration and the server name that a session was begun with.
pub uninterp spec fn begun_with(tls: &UnbufferedClientConnection) -> (
    ClientConfig,
    ServerName<'static>,
);

/// An attempt to begin a session with this configuration and name gives one, or
/// gives none.
pub uninterp spec fn begins(
    config: ClientConfig,
    name: ServerName<'static>,
    begun: bool,
) -> bool;

/// How much of the input that it was given a session still needs at the front of
/// its next input: a handshake message that came in part.
pub uninterp spec fn held(tls: &UnbufferedClientConnection) -> nat;

/// The decrypted records that wait to be read.
pub uninterp spec fn records(rt: &ReadTraffic<'_, '_, ClientConnectionData>) -> Seq<Seq<u8>>;

/// The handshake record that waits to be encoded.
pub uninterp spec fn record_to_send(et: &EncodeTlsData<'_, ClientConnectionData>) -> Option<Seq<u8>>;

/// What a session wants next, as values.
pub enum Wants {
    /// It failed.
    Broken,
    /// These records, decrypted, wait to be read.
    Read(Seq<Seq<u8>>),
    /// A handshake record is to go out; `None` is one already gone.
    Encode(Option<Seq<u8>>),
    /// What was encoded is to be sent.
    Transmit,
    /// Application data can be encrypted.
    Write,
    /// Nothing.
    Wait,
}

/// What a session wants, given the state that it was found in.
pub open spec fn wants(state: Option<TlsState<'_, '_>>) -> Wants {
    match state {
        Some(TlsState::Read(rt)) => Wants::Read(records(&rt)),
        Some(TlsState::Encode(et)) => Wants::Encode(record_to_send(&et)),
        Some(TlsState::Transmit(_)) => Wants::Transmit,
        Some(TlsState::Write(_)) => Wants::Write,
        Some(TlsState::Wait) => Wants::Wait,
        None => Wants::Broken,
    }
}

/// Some session, given the input `given`, turns it into `worked` in place, has no
/// more need of its first `discard` bytes, and then wants `wants`.
pub uninterp spec fn answers(
    given: Seq<u8>,
    worked: Seq<u8>,
    discard: nat,
    wants: Wants,
) -> bool;

/// Some session, asked to encrypt `data` into `room` bytes, writes the bytes in
/// `r`, or where there are none writes nothing.
pub uninterp spec fn sealed(data: Seq<u8>, room: nat, r: Option<Seq<u8>>) -> bool;

/// Some session decrypts these records, having been given `given`.
pub open spec fn opened(given: Seq<u8>, records: Seq<Seq<u8>>) -> bool {
    exists|worked: Seq<u8>, discard: nat| #[trigger]
        answers(given, worked, discard, Wants::Read(records))
}

/// `ServerName::try_from` on a host, made independent of it.
#[verifier::external_body]
pub(crate) fn server_name(host: &str) -> (r: Option<ServerName<'static>>)
    ensures
        r == server_name_of(host@),
{
    ServerName::try_from(host).ok().map(|name| name.to_owned())
}

/// `UnbufferedClientConnection::new`: a session begun with the given
/// configuration and name, which was given no input yet. It holds fresh randomness,
/// so no more is said of it.
/// When none comes back rests on what the configuration offers.
#[verifier::external_body]
pub(crate) fn client(config: &Arc<ClientConfig>, name: ServerName<'static>) -> (r: Option<
    UnbufferedClientConnection,
>)
    ensures
        begins(**config, name, r is Some),
        r matches Some(tls) ==> begun_with(&tls) == (**config, name) && held(&tls) == 0,
{
    UnbufferedClientConnection::new(config.clone(), name).ok()
}

/// `process_tls_records`: works through the records in `incoming`, in place, up
/// to the next thing the session wants. The first part of the result is how many
/// bytes are then to be dropped from the front of `incoming`; what the session
/// still needs is never among them. It reaches back into what it still needs, so
/// that has to be there. `None` is a failed session. What the session makes of its
/// input rests on the peer, on its secrets and on the time.
#[verifier::external_body]
pub(crate) fn process<'c, 'i>(
    tls: &'c mut UnbufferedClientConnection,
    incoming: &'i mut Vec<u8>,
) -> (r: (usize, Option<TlsState<'c, 'i>>))
    requires
        held(old(tls)) <= old(incoming)@.len(),
    ensures
        answers(old(incoming)@, final(incoming)@, r.0 as nat, wants(r.1)),
        final(incoming)@.len() == old(incoming)@.len(),
        r.0 + held(final(tls)) <= old(incoming)@.len(),
        begun_with(final(tls)) == begun_with(old(tls)),
{
    let status = tls.process_tls_records(incoming);
    let state = match status.state {
        Ok(ConnectionState::ReadTraffic(rt)) => Some(TlsState::Read(rt)),
        Ok(ConnectionState::EncodeTlsData(et)) => Some(TlsState::Encode(et)),
        Ok(ConnectionState::TransmitTlsData(tt)) => Some(TlsState::Transmit(tt)),
        Ok(ConnectionState::WriteTraffic(wt)) => Some(TlsState::Write(wt)),
        Ok(_) => Some(TlsState::Wait),
        Err(_) => None,
    };
    (status.discard, state)
}

/// `ReadTraffic::next_record`: the payload of the next record, which then waits
/// no longer. `Some(None)` would be a record that could not be read; records wait
/// decrypted, so there is none such.
#[verifier::external_body]
pub(crate) fn next_record<'a>(rt: &'a mut ReadTraffic<'_, '_, ClientConnectionData>) -> (r: Option<
    Option<&'a [u8]>,
>)
    ensures
        r is None <==> records(old(rt)).len() == 0,
        r matches Some(p) ==> p is Some,
        r matches Some(Some(payload)) ==> payload@ == records(old(rt))[0],
        r is Some ==> records(final(rt)) == records(old(rt)).drop_first(),
{
    match rt.next_record() {
        Some(Ok(rec)) => Some(Some(rec.payload)),
        Some(Err(_)) => Some(None),
        None => None,
    }
}

/// `EncodeTlsData::encode` into `out` from `at` on: writes the record that waits,
/// where it fits, and says how long it is; else changes nothing.
#[verifier::external_body]
pub(crate) fn encode(
    et: &mut EncodeTlsData<'_, ClientConnectionData>,
    out: &mut Vec<u8>,
    at: usize,
) -> (r: Option<usize>)
    requires
        at <= old(out)@.len(),
    ensures
        final(out)@.len() == old(out)@.len(),
        match record_to_send(old(et)) {
            Some(rec) => if at + rec.len() <= old(out)@.len() {
                &&& r == Some(rec.len() as usize)
                &&& final(out)@ == old(out)@.take(at as int) + rec + old(out)@.skip(
                    at + rec.len(),
                )
            } else {
                r is None && final(out)@ == old(out)@
            },
            None => r is None && final(out)@ == old(out)@,
        },
{
    et.encode(&mut out[at..]).ok()
}

/// `TransmitTlsData::done`.
#[verifier::external_body]
pub(crate) fn transmitted(tt: TransmitTlsData<'_, ClientConnectionData>) {
    tt.done();
}

/// `WriteTraffic::encrypt` of `data` into `out` from `at` on: says how many bytes
/// it wrote there, and changes nothing where it fails. Which of the encryptions of
/// `data` that is, and how long, rests on the session's secrets and on what was
/// negotiated.
#[verifier::external_body]
pub(crate) fn encrypt(
    wt: &mut WriteTraffic<'_, ClientConnectionData>,
    data: &[u8],
    out: &mut Vec<u8>,
    at: usize,
) -> (r: Option<usize>)
    requires
        at <= old(out)@.len(),
    ensures
        final(out)@.len() == old(out)@.len(),
        final(out)@.take(at as int) == old(out)@.take(at as int),
        match r {
            Some(n) => {
                &&& at + n <= old(out)@.len()
                &&& sealed(
                    data@,
                    (old(out)@.len() - at) as nat,
                    Some(final(out)@.subrange(at as int, at + n)),
                )
            },
            None => {
                &&& final(out)@ == old(out)@
                &&& sealed(data@, (old(out)@.len() - at) as nat, None)
            },
        },
{
    wt.encrypt(data, &mut out[at..]).ok()
}

} // verus!
