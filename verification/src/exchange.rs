//! One request and its response, apart from the socket and the TLS session that
//! carry them.

use vstd::prelude::*;
use vstd::string::*;

use rustls::client::ClientConnectionData;
use rustls::unbuffered::{EncodeTlsData, ReadTraffic, WriteTraffic};

use crate::error::Error;
use crate::http;
use crate::http::{BodySink, ParserView, ResponseParser, SinkView};
use crate::http_laws;
use crate::text;
use crate::tls;
use crate::tls::{Wants, TLS_BUF_CAP, TLS_OVERHEAD};

verus! {

/// The request is a HEAD request: its response has no body.
pub open spec fn asks_for_head(request: Seq<u8>) -> bool {
    "HEAD ".spec_bytes().is_prefix_of(request)
}

pub fn is_head_request(head: &[u8]) -> (r: bool)
    ensures
        r == asks_for_head(head@),
{
    text::starts_with(head, "HEAD ".as_bytes())
}

/// A response with this status has a body (RFC 7230 3.3.3).
pub open spec fn carries_body(status: u16, is_head: bool) -> bool {
    !is_head && !(100 <= status < 200) && status != 204 && status != 304
}

/// RFC 7230 3.3.3.
pub fn has_body(status: u16, is_head: bool) -> (r: bool)
    ensures
        r == carries_body(status, is_head),
{
    !is_head && !(100 <= status && status < 200) && status != 204 && status != 304
}

/// One request, and as much of its response as has come in.
pub struct Exchange<S> {
    /// Bytes on their way to the peer.
    pub(crate) outgoing: Vec<u8>,
    /// The request.
    pub(crate) head: Vec<u8>,
    pub(crate) request_queued: bool,
    pub(crate) handshake_done: bool,
    pub(crate) parser: ResponseParser,
    pub(crate) sink: S,
}

/// The value of an [`Exchange`].
#[verifier::ext_equal]
pub struct ExchangeView {
    pub outgoing: Seq<u8>,
    pub request: Seq<u8>,
    /// The request is in `outgoing`, or gone out.
    pub queued: bool,
    /// The channel takes application data.
    pub ready: bool,
    pub parser: ParserView,
    /// Where the body goes.
    pub sink: SinkView,
}

impl<S: BodySink> View for Exchange<S> {
    type V = ExchangeView;

    open(crate) spec fn view(&self) -> ExchangeView {
        ExchangeView {
            outgoing: self.outgoing@,
            request: self.head@,
            queued: self.request_queued,
            ready: self.handshake_done,
            parser: self.parser@,
            sink: http::sink_view(&self.sink),
        }
    }
}

/// So many zeros; none for a number below 0.
pub open spec fn zeros(n: int) -> Seq<u8> {
    Seq::new(
        if n < 0 {
            0
        } else {
            n as nat
        },
        |i: int| 0u8,
    )
}

/// What the session answered in one round.
pub enum Answer {
    /// It failed.
    Broken,
    /// These records came in.
    Read(Seq<Seq<u8>>),
    /// A handshake record is to go out; `None` is one already gone.
    Encode(Option<Seq<u8>>),
    /// What was encoded is on its way.
    Transmit,
    /// The channel takes application data. This is the request encrypted, or
    /// `None` where that failed; it is read only where the request is still due.
    Write(Option<Seq<u8>>),
    /// Nothing to do.
    Wait,
}

impl Answer {
    /// What the session wanted.
    pub open spec fn wants(self) -> Wants {
        match self {
            Answer::Broken => Wants::Broken,
            Answer::Read(records) => Wants::Read(records),
            Answer::Encode(record) => Wants::Encode(record),
            Answer::Transmit => Wants::Transmit,
            Answer::Write(_) => Wants::Write,
            Answer::Wait => Wants::Wait,
        }
    }
}

/// Where a round leaves an exchange.
pub struct Rounded {
    pub exchange: ExchangeView,
    pub failed: Option<Error>,
    /// Another round may get further.
    pub more: bool,
}

impl ExchangeView {
    /// Nothing was sent or received yet.
    pub open spec fn fresh(request: Seq<u8>, outgoing: Seq<u8>, sink: SinkView) -> ExchangeView {
        ExchangeView {
            outgoing,
            request,
            queued: false,
            ready: false,
            parser: http::blank_parser(),
            sink,
        }
    }

    /// The request put among the outgoing bytes as it is.
    pub open spec fn with_request(self) -> ExchangeView {
        ExchangeView {
            outgoing: self.outgoing + self.request,
            queued: true,
            ready: true,
            ..self
        }
    }

    /// The first `n` outgoing bytes gone.
    pub open spec fn with_sent(self, n: int) -> ExchangeView {
        ExchangeView { outgoing: self.outgoing.skip(n), ..self }
    }

    /// Response bytes taken in, and the error, if there is one.
    pub open spec fn with_response(self, data: Seq<u8>) -> (ExchangeView, Option<Error>) {
        let f = http::fed(self.parser, data);
        (
            ExchangeView { parser: f.parser, sink: self.sink.with(f.body), ..self },
            if f.error is Some {
                Some(Error::BadResponse)
            } else {
                None
            },
        )
    }

    /// Decrypted records taken in, up to the first that is wrong.
    pub open spec fn with_records(self, records: Seq<Seq<u8>>) -> (ExchangeView, Option<Error>) {
        let f = http_laws::fed_all(self.parser, records);
        (
            ExchangeView { parser: f.parser, sink: self.sink.with(f.body), ..self },
            if f.error is Some {
                Some(Error::BadResponse)
            } else {
                None
            },
        )
    }

    /// One round with the session.
    pub open spec fn round(self, answer: Answer) -> Rounded {
        match answer {
            Answer::Broken => Rounded { exchange: self, failed: Some(Error::Tls), more: false },
            Answer::Read(records) => {
                let (exchange, failed) = self.with_records(records);
                Rounded { exchange, failed, more: failed is None }
            },
            Answer::Encode(record) => match record {
                Some(record) if self.outgoing.len() + record.len() <= TLS_BUF_CAP => Rounded {
                    exchange: ExchangeView { outgoing: self.outgoing + record, ..self },
                    failed: None,
                    more: true,
                },
                _ => Rounded {
                    exchange: self.padded(TLS_BUF_CAP - self.outgoing.len()),
                    failed: Some(Error::Tls),
                    more: false,
                },
            },
            Answer::Transmit => Rounded { exchange: self, failed: None, more: true },
            Answer::Write(request) => {
                let ready = ExchangeView { ready: true, ..self };
                if self.queued {
                    Rounded { exchange: ready, failed: None, more: false }
                } else {
                    match request {
                        Some(bytes) => Rounded {
                            exchange: ExchangeView {
                                outgoing: self.outgoing + bytes,
                                queued: true,
                                ..ready
                            },
                            failed: None,
                            more: true,
                        },
                        None => Rounded {
                            exchange: ready.padded(self.sealing_room()),
                            failed: Some(Error::Tls),
                            more: false,
                        },
                    }
                }
            },
            Answer::Wait => Rounded { exchange: self, failed: None, more: false },
        }
    }

    /// The room for `n` more outgoing bytes, left as it was made: zeros.
    pub open spec fn padded(self, n: int) -> ExchangeView {
        ExchangeView { outgoing: self.outgoing + zeros(n), ..self }
    }

    /// The room that is made for the request encrypted: for it and the overhead,
    /// where that much can be had, and else none.
    pub open spec fn sealing_room(self) -> int {
        let room = self.request.len() + TLS_OVERHEAD;
        if self.outgoing.len() + room > usize::MAX {
            0
        } else {
            room
        }
    }

    /// What was encrypted, if anything was to be, is the request, into the room made
    /// for it. Where no room can be had, nothing was.
    pub open spec fn encrypts(self, answer: Answer) -> bool {
        let room = self.sealing_room();
        match answer {
            Answer::Write(r) if !self.queued => if room == 0 {
                r is None
            } else {
                &&& tls::sealed(self.request, room as nat, r)
                &&& r matches Some(bytes) ==> bytes.len() <= room
            },
            _ => true,
        }
    }

    /// The response is whole by its own framing, with nothing left to send.
    pub open spec fn framed(self) -> bool {
        &&& self.parser.done
        &&& self.outgoing.len() == 0
        &&& carries_body(self.parser.head.status, asks_for_head(self.request)) ==> match self.parser.head.content_length {
            Some(want) => self.parser.body >= want,
            None => false,
        }
    }
}

impl<S: BodySink> Exchange<S> {
    /// What the sink needs to hold between calls.
    pub open(crate) spec fn wf(&self) -> bool {
        self.sink.inv()
    }

    /// Where the body goes.
    pub open(crate) spec fn target(&self) -> S {
        self.sink
    }

    /// Body bytes the sink stored.
    pub open spec fn stored(&self) -> u64 {
        self.target().stored()
    }

    /// The sink was handed more than it could store.
    pub open spec fn dropped(&self) -> bool {
        self.target().dropped()
    }

    /// The request `head`, its response to go to `sink`; the bytes in `outgoing`
    /// go out first.
    pub fn new(head: Vec<u8>, outgoing: Vec<u8>, sink: S) -> (x: Self)
        requires
            sink.inv(),
        ensures
            x.wf(),
            x@ == ExchangeView::fresh(head@, outgoing@, http::sink_view(&sink)),
            x.target() == sink,
    {
        Exchange {
            outgoing,
            head,
            request_queued: false,
            handshake_done: false,
            parser: ResponseParser::new(),
            sink,
        }
    }

    /// The buffers back: the request's and the outgoing one.
    pub(crate) fn into_parts(self) -> (r: (Vec<u8>, Vec<u8>))
        ensures
            r.0@ == self@.request,
            r.1@ == self@.outgoing,
    {
        (self.head, self.outgoing)
    }

    /// Starts over with another request, in the same channel.
    pub fn restart(&mut self, head: &[u8], sink: S)
        requires
            sink.inv(),
        ensures
            final(self).wf(),
            final(self)@ == (ExchangeView {
                ready: old(self)@.ready,
                ..ExchangeView::fresh(head@, old(self)@.outgoing, http::sink_view(&sink))
            }),
            final(self).target() == sink,
    {
        self.head.clear();
        self.head.extend_from_slice(head);
        assert(self.head@ == head@);
        self.request_queued = false;
        self.parser = ResponseParser::new();
        self.sink = sink;
    }

    /// Another sink in place of the one that the body went to, which comes back.
    pub(crate) fn swap_sink(&mut self, sink: S) -> (r: S)
        requires
            sink.inv(),
        ensures
            final(self).wf(),
            r == old(self).target(),
            final(self).target() == sink,
            final(self)@ == (ExchangeView { sink: http::sink_view(&sink), ..old(self)@ }),
    {
        let mut s = sink;
        std::mem::swap(&mut self.sink, &mut s);
        s
    }

    /// Body bytes the sink stored.
    pub fn sink_written(&self) -> (r: u64)
        requires
            self.wf(),
        ensures
            r == self.stored(),
    {
        self.sink.written()
    }

    /// The sink was handed more than it could store.
    pub fn sink_overflowed(&self) -> (r: bool)
        requires
            self.wf(),
        ensures
            r == self.dropped(),
    {
        self.sink.overflowed()
    }

    /// Puts the request among the outgoing bytes as it is.
    pub fn queue_plain(&mut self)
        requires
            old(self).wf(),
        ensures
            final(self).wf(),
            final(self)@ == old(self)@.with_request(),
    {
        self.outgoing.extend_from_slice(self.head.as_slice());
        self.request_queued = true;
        self.handshake_done = true;
        assert(self.outgoing@ == old(self).outgoing@ + self.head@);
    }

    /// The first `n` outgoing bytes are gone.
    pub fn sent(&mut self, n: usize)
        requires
            old(self).wf(),
            n <= old(self)@.outgoing.len(),
        ensures
            final(self).wf(),
            final(self)@ == old(self)@.with_sent(n as int),
    {
        drop_front(&mut self.outgoing, n);
    }

    /// Takes in response bytes.
    pub fn feed(&mut self, data: &[u8]) -> (r: Option<Error>)
        requires
            old(self).wf(),
        ensures
            final(self).wf(),
            (final(self)@, r) == old(self)@.with_response(data@),
    {
        match self.parser.feed(data, &mut self.sink) {
            Ok(()) => None,
            Err(_) => Some(Error::BadResponse),
        }
    }

    /// Takes in one record that the session decrypted; `None` is one that could
    /// not be read.
    pub fn on_record(&mut self, payload: Option<&[u8]>) -> (r: Option<Error>)
        requires
            old(self).wf(),
        ensures
            final(self).wf(),
            (final(self)@, r) == (match payload {
                Some(p) => old(self)@.with_response(p@),
                None => (old(self)@, Some(Error::Tls)),
            }),
    {
        match payload {
            Some(p) => self.feed(p),
            None => Some(Error::Tls),
        }
    }

    /// Keeps, of the room behind the first `at` outgoing bytes, the `n` bytes that
    /// were written there; where writing failed, that ends the connection, and the
    /// room stays as it is.
    pub fn on_written(&mut self, at: usize, n: Option<usize>) -> (r: Option<Error>)
        requires
            old(self).wf(),
            at <= old(self)@.outgoing.len(),
            n matches Some(n) ==> at + n <= old(self)@.outgoing.len(),
        ensures
            final(self).wf(),
            match n {
                Some(n) => {
                    &&& r is None
                    &&& final(self)@ == (ExchangeView {
                        outgoing: old(self)@.outgoing.take(at + n),
                        ..old(self)@
                    })
                },
                None => r == Some(Error::Tls) && final(self)@ == old(self)@,
            },
    {
        match n {
            Some(n) => {
                assert(self.outgoing.len() == self.outgoing@.len());
                self.outgoing.truncate(at + n);
                None
            },
            None => Some(Error::Tls),
        }
    }

    /// Takes in every record that waits, up to the first that is wrong.
    pub(crate) fn read_records(
        &mut self,
        rt: &mut ReadTraffic<'_, '_, ClientConnectionData>,
    ) -> (r: Option<Error>)
        requires
            old(self).wf(),
        ensures
            final(self).wf(),
            (final(self)@, r) == old(self)@.with_records(tls::records(old(rt))),
    {
        let ghost x = self@;
        let ghost all = tls::records(rt);
        let ghost mut n: int = 0;
        assert(x.sink.with(Seq::empty()) == x.sink);
        loop
            invariant
                self.wf(),
                x == old(self)@,
                all == tls::records(old(rt)),
                0 <= n <= all.len(),
                tls::records(rt) == all.skip(n),
                (self@, None::<Error>) == x.with_records(all.take(n)),
            decreases all.len() - n,
        {
            match tls::next_record(rt) {
                None => {
                    assert(all.take(n) == all);
                    return None;
                },
                Some(payload) => {
                    let r = self.on_record(payload);
                    proof {
                        lemma_one_more(x, all, n, payload->0@);
                    }
                    if r.is_some() {
                        proof {
                            lemma_wrong_stays_wrong(x, all, n + 1);
                        }
                        return r;
                    }
                    proof {
                        assert(all.skip(n).drop_first() == all.skip(n + 1));
                        n = n + 1;
                    }
                },
            }
        }
    }

    /// Puts the handshake record that waits behind the outgoing bytes.
    pub(crate) fn encode_record(&mut self, et: &mut EncodeTlsData<'_, ClientConnectionData>) -> (r:
        Option<Error>)
        requires
            old(self).wf(),
        ensures
            final(self).wf(),
            old(self)@.round(Answer::Encode(tls::record_to_send(old(et)))) == (Rounded {
                exchange: final(self)@,
                failed: r,
                more: r is None,
            }),
    {
        let at: usize = self.outgoing.len();
        if at > TLS_BUF_CAP {
            assert(self@ == self@.padded(TLS_BUF_CAP - at));
            return Some(Error::Tls);
        }
        let ghost before = self.outgoing@;
        self.outgoing.resize(TLS_BUF_CAP, 0);
        assert(self.outgoing@.take(at as int) == before);
        assert(self.outgoing@ == before + zeros(TLS_BUF_CAP - at));
        let n = tls::encode(et, &mut self.outgoing, at);
        proof {
            match n {
                Some(n) => {
                    let rec = tls::record_to_send(old(et))->0;
                    assert(self.outgoing@.take(at + n) == before + rec);
                },
                None => {},
            }
        }
        self.on_written(at, n)
    }

    /// The channel takes application data: puts the request behind the outgoing
    /// bytes, encrypted, unless that was done before. The second part of the
    /// result says whether it was done now.
    pub(crate) fn write_request(&mut self, wt: &mut WriteTraffic<'_, ClientConnectionData>) -> (r: (
        Option<Error>,
        bool,
    ))
        requires
            old(self).wf(),
        ensures
            final(self).wf(),
            exists|request: Option<Seq<u8>>|
                {
                    &&& old(self)@.encrypts(Answer::Write(request))
                    &&& #[trigger] old(self)@.round(Answer::Write(request)) == (Rounded {
                        exchange: final(self)@,
                        failed: r.0,
                        more: r.1,
                    })
                },
    {
        let ghost x = self@;
        self.handshake_done = true;
        if self.request_queued {
            assert(x.round(Answer::Write(None)) == (Rounded {
                exchange: self@,
                failed: None,
                more: false,
            }));
            return (None, false);
        }
        let at: usize = self.outgoing.len();
        let n: usize = self.head.len();
        if at > usize::MAX - TLS_OVERHEAD || n > usize::MAX - TLS_OVERHEAD - at {
            assert(self@ == self@.padded(0));
            assert(x.round(Answer::Write(None)) == (Rounded {
                exchange: self@,
                failed: Some(Error::Tls),
                more: false,
            }));
            return (Some(Error::Tls), false);
        }
        self.outgoing.resize(at + n + TLS_OVERHEAD, 0);
        assert(self.outgoing@.take(at as int) == x.outgoing);
        assert(self.outgoing@ == x.outgoing + zeros(n + TLS_OVERHEAD));
        let written = tls::encrypt(wt, self.head.as_slice(), &mut self.outgoing, at);
        let ghost request = match written {
            Some(n) => Some(self.outgoing@.subrange(at as int, at + n)),
            None => None,
        };
        proof {
            if let Some(n) = written {
                assert(self.outgoing@.take(at + n) == x.outgoing + request->0);
            }
        }
        match self.on_written(at, written) {
            Some(e) => {
                assert(x.round(Answer::Write(request)) == (Rounded {
                    exchange: self@,
                    failed: Some(e),
                    more: false,
                }));
                (Some(e), false)
            },
            None => {
                self.request_queued = true;
                assert(x.round(Answer::Write(request)) == (Rounded {
                    exchange: self@,
                    failed: None,
                    more: true,
                }));
                (None, true)
            },
        }
    }
}

proof fn lemma_one_more(x: ExchangeView, all: Seq<Seq<u8>>, n: int, record: Seq<u8>)
    requires
        0 <= n < all.len(),
        all[n] == record,
        x.with_records(all.take(n)).1 is None,
    ensures
        x.with_records(all.take(n)).0.with_response(record) == x.with_records(all.take(n + 1)),
{
    let before = all.take(n);
    let after = all.take(n + 1);
    assert(after.drop_last() == before);
    assert(after.last() == record);
    let b = http_laws::fed_all(x.parser, before);
    let f = http::fed(b.parser, record);
    assert(x.sink.with(b.body).with(f.body) == x.sink.with(b.body + f.body));
}

/// A record that is wrong ends it, whatever follows.
proof fn lemma_wrong_stays_wrong(x: ExchangeView, all: Seq<Seq<u8>>, n: int)
    requires
        0 <= n <= all.len(),
        x.with_records(all.take(n)).1 is Some,
    ensures
        x.with_records(all) == x.with_records(all.take(n)),
    decreases all.len(),
{
    if n < all.len() {
        assert(all.drop_last().take(n) == all.take(n));
        lemma_wrong_stays_wrong(x, all.drop_last(), n);
    } else {
        assert(all.take(n) == all);
    }
}

/// Drops the first `n` bytes.
pub fn drop_front(v: &mut Vec<u8>, n: usize)
    requires
        n <= old(v)@.len(),
    ensures
        final(v)@ == old(v)@.skip(n as int),
{
    if n > 0 {
        let rest = v.split_off(n);
        *v = rest;
    } else {
        assert(v@ == v@.skip(0));
    }
}

} // verus!
