//! A worker and its server over a loopback interface, in the clear and over TLS.

use std::cell::RefCell;
use std::io::{Read, Write};
use std::rc::Rc;
use std::sync::Arc;

use rustls::pki_types::{CertificateDer, PrivateKeyDer, PrivatePkcs8KeyDer};
use rustls::{ClientConfig, RootCertStore, ServerConfig, ServerConnection};
use smoltcp::iface::{Config as IfaceConfig, Interface, SocketHandle};
use smoltcp::phy::{Loopback, Medium};
use smoltcp::socket::tcp;
use smoltcp::time::Instant;
use smoltcp::wire::{EthernetAddress, IpAddress, IpCidr};

use mininet::rss::Rss;
use mininet::service::{Completion, Job, Server};
use mininet::stats::Counters;
use mininet::{BodySink, BufferSink, Endpoint, Error, GetResult, Netif, Stack, Step, Worker, WorkerConfig};

const US: [u8; 4] = [127, 0, 0, 1];
const GET: &[u8] = b"GET /x HTTP/1.1\r\nHost: h\r\n\r\n";
const OK: &[u8] = b"HTTP/1.1 200 OK\r\nContent-Length: 5\r\nETag: \"e\"\r\n\r\nhello";

/// Keeps what it is handed, up to a bound, where the test can see it.
#[derive(Clone)]
struct Shared {
    seen: Rc<RefCell<Vec<u8>>>,
    offered: usize,
    cap: usize,
}

impl Shared {
    fn new(cap: usize) -> Self {
        Shared { seen: Rc::new(RefCell::new(Vec::new())), offered: 0, cap }
    }
}

impl BodySink for Shared {
    fn write(&mut self, data: &[u8]) {
        self.offered += data.len();
        let mut seen = self.seen.borrow_mut();
        let room = self.cap - seen.len();
        seen.extend_from_slice(&data[..data.len().min(room)]);
    }

    fn written(&self) -> u64 {
        self.seen.borrow().len() as u64
    }

    fn overflowed(&self) -> bool {
        self.offered > self.cap
    }
}

/// What the far end does with a request.
#[derive(Clone, Copy, PartialEq, Eq)]
enum Far {
    Reply(&'static [u8]),
    Close,
}

/// A socket of the far end, with its TLS session if it has one.
struct FarEnd {
    handle: SocketHandle,
    tls: Option<ServerConnection>,
    got: Vec<u8>,
    to_send: Vec<u8>,
}

struct Net {
    dev: Loopback,
    iface: Interface,
    server: Server<Shared>,
    far: Vec<FarEnd>,
    script: Vec<Far>,
    requests: Vec<Vec<u8>>,
    raw: Vec<u8>,
    stats: Counters,
    now_ms: i64,
}

fn plain_client() -> Arc<ClientConfig> {
    client_for(RootCertStore::empty())
}

fn client_for(roots: RootCertStore) -> Arc<ClientConfig> {
    let provider = Arc::new(rustls::crypto::ring::default_provider());
    Arc::new(
        ClientConfig::builder_with_provider(provider)
            .with_safe_default_protocol_versions()
            .unwrap()
            .with_root_certificates(roots)
            .with_no_client_auth(),
    )
}

/// A certificate for `name`, and both sides' configurations around it.
fn tls_pair(name: &str) -> (Arc<ClientConfig>, Arc<ServerConfig>) {
    let made = rcgen::generate_simple_self_signed(vec![name.to_string()]).unwrap();
    let cert: CertificateDer<'static> = made.cert.der().clone();
    let key = PrivateKeyDer::Pkcs8(PrivatePkcs8KeyDer::from(made.key_pair.serialize_der()));
    let mut roots = RootCertStore::empty();
    roots.add(cert.clone()).unwrap();
    let provider = Arc::new(rustls::crypto::ring::default_provider());
    let server = ServerConfig::builder_with_provider(provider)
        .with_safe_default_protocol_versions()
        .unwrap()
        .with_no_client_auth()
        .with_single_cert(vec![cert], key)
        .unwrap();
    (client_for(roots), Arc::new(server))
}

fn stack() -> Stack {
    let netif = Netif {
        mac: [2, 0, 0, 0, 0, 1],
        ip: US,
        prefix_len: 8,
        gateway_ip: [127, 0, 0, 2],
        gateway_mac: [2, 0, 0, 0, 0, 9],
    };
    Stack::new(vec![0], Rss::single(), netif, 1)
}

fn far_socket() -> tcp::Socket<'static> {
    tcp::Socket::new(tcp::SocketBuffer::new(vec![0; 65536]), tcp::SocketBuffer::new(vec![0; 65536]))
}

impl Net {
    fn new(peer: Endpoint, client: Arc<ClientConfig>, far_tls: Option<Arc<ServerConfig>>, script: Vec<Far>) -> Net {
        let port = peer.port;
        let mut cfg = WorkerConfig::new(peer);
        cfg.conns = 2;
        cfg.rx_buffer = 8192;
        cfg.tx_buffer = 4096;
        let handle = stack().handle(0).unwrap();
        let worker = match Worker::new(&handle, &cfg, client) {
            Ok(w) => w,
            Err(e) => panic!("{:?}", e),
        };
        let mut server = Server::new(worker, 0);
        let mut dev = Loopback::new(Medium::Ethernet);
        let mut iface = Interface::new(
            IfaceConfig::new(EthernetAddress([2, 0, 0, 0, 0, 1]).into()),
            &mut dev,
            Instant::from_millis(0),
        );
        iface.update_ip_addrs(|a| {
            let _ = a.push(IpCidr::new(IpAddress::v4(127, 0, 0, 1), 8));
        });
        let mut far = Vec::new();
        for _ in 0..3 {
            let sockets = server.worker_mut().poll_parts().1;
            let handle = sockets.add(far_socket());
            sockets.get_mut::<tcp::Socket>(handle).listen(port).unwrap();
            let tls = far_tls.clone().map(|c| {
                let mut tls = ServerConnection::new(c).unwrap();
                tls.set_buffer_limit(None);
                tls
            });
            far.push(FarEnd { handle, tls, got: Vec::new(), to_send: Vec::new() });
        }
        Net { dev, iface, server, far, script, requests: Vec::new(), raw: Vec::new(), stats: Counters::default(), now_ms: 1 }
    }

    /// One turn of the far end.
    fn far_turn(&mut self) {
        let sockets = self.server.worker_mut().poll_parts().1;
        for f in self.far.iter_mut() {
            let s = sockets.get_mut::<tcp::Socket>(f.handle);
            let mut raw = Vec::new();
            while s.can_recv() {
                s.recv(|b| {
                    raw.extend_from_slice(b);
                    (b.len(), ())
                })
                .unwrap();
            }
            self.raw.extend_from_slice(&raw);
            match f.tls.as_mut() {
                Some(tls) => {
                    let mut rest = &raw[..];
                    while !rest.is_empty() {
                        tls.read_tls(&mut rest).unwrap();
                        let _ = tls.process_new_packets();
                    }
                    let mut plain = [0u8; 4096];
                    while let Ok(n) = tls.reader().read(&mut plain) {
                        if n == 0 {
                            break;
                        }
                        f.got.extend_from_slice(&plain[..n]);
                    }
                }
                None => f.got.extend_from_slice(&raw),
            }
            if f.got.windows(4).any(|w| w == b"\r\n\r\n") && !self.script.is_empty() {
                self.requests.push(std::mem::take(&mut f.got));
                match self.script.remove(0) {
                    Far::Close => s.close(),
                    Far::Reply(bytes) => match f.tls.as_mut() {
                        Some(tls) => tls.writer().write_all(bytes).unwrap(),
                        None => f.to_send.extend_from_slice(bytes),
                    },
                }
            }
            if let Some(tls) = f.tls.as_mut() {
                while tls.wants_write() {
                    tls.write_tls(&mut f.to_send).unwrap();
                }
            }
            if !f.to_send.is_empty() && s.can_send() {
                let n = s.send_slice(&f.to_send).unwrap();
                f.to_send.drain(..n);
            }
        }
    }

    fn now_ns(&self) -> u64 {
        self.now_ms as u64 * 1_000_000
    }

    /// Serves `job` in `slot` until it is over, or 3000 ms pass.
    fn get(&mut self, slot: usize, head: &[u8], sink: &Shared) -> Option<Completion> {
        let mut job = Some(Job { id: 40 + slot, head: head.to_vec(), submitted_ns: self.now_ns() });
        for _ in 0..3000 {
            self.now_ms += 1;
            let now_ns = self.now_ns();
            let clock = move || now_ns;
            self.server.worker_mut().begin_poll(now_ns);
            {
                let (_, sockets) = self.server.worker_mut().poll_parts();
                self.iface.poll(Instant::from_millis(self.now_ms), &mut self.dev, sockets);
            }
            self.far_turn();
            self.server.worker_mut().finish_poll(&mut self.stats, now_ns, now_ns, true, &clock);
            self.server.account(&mut self.stats);
            let next = if self.server.wants(slot) { job.take() } else { None };
            let fresh = || Shared { offered: 0, ..sink.clone() };
            let sinks = |_id: usize| {
                sink.seen.borrow_mut().clear();
                fresh()
            };
            let done = self.server.serve_slot(
                slot,
                next,
                self.iface.context(),
                &mut self.stats,
                &sinks,
                &clock,
                now_ns,
            );
            if done.is_some() {
                return done;
            }
        }
        None
    }

    fn ok(&mut self, slot: usize, sink: &Shared) -> GetResult {
        match self.get(slot, GET, sink) {
            Some(Completion { id, result: Ok(g) }) => {
                assert_eq!(id, 40 + slot);
                g
            }
            Some(Completion { result: Err(e), .. }) => panic!("{:?}", e),
            None => panic!("no answer"),
        }
    }
}

fn http_peer() -> Endpoint {
    Endpoint::new(US, "h", false)
}

#[test]
fn a_request_and_its_answer() {
    let mut net = Net::new(http_peer(), plain_client(), None, vec![Far::Reply(OK)]);
    let sink = Shared::new(16);
    let g = net.ok(0, &sink);
    assert_eq!(g.status, 200);
    assert_eq!(g.written, 5);
    assert_eq!(g.content_length, Some(5));
    assert_eq!(g.etag.as_deref(), Some("\"e\""));
    assert_eq!(*sink.seen.borrow(), b"hello");
    assert_eq!(net.requests, [GET.to_vec()]);
    assert_eq!((net.stats.requests_served, net.stats.requests_reused), (1, 0));
    assert_eq!((net.stats.requests_done, net.stats.body_bytes), (1, 5));
    assert_eq!((net.stats.conns_established, net.stats.ttfb_n, net.stats.xfer_n), (1, 1, 1));
    // The connection is kept, and its strings are given away.
    assert!(net.server.worker_mut().idle_reusable(0));
    assert!(!net.server.worker_mut().idle_reusable(1));
    assert!(!net.server.worker_mut().idle_reusable(7));
    assert_eq!(net.server.worker_mut().conn(0).unwrap().head().etag, None);
}

#[test]
fn a_kept_connection_is_reused() {
    let mut net = Net::new(http_peer(), plain_client(), None, vec![Far::Reply(OK); 3]);
    let sink = Shared::new(16);
    net.ok(0, &sink);
    let port = net.server.worker_mut().conn(0).unwrap().src_port();
    let g = net.ok(0, &sink);
    assert_eq!((g.status, g.written), (200, 5));
    assert_eq!(*sink.seen.borrow(), b"hello");
    assert_eq!(net.server.worker_mut().conn(0).unwrap().src_port(), port);
    assert_eq!((net.stats.requests_served, net.stats.requests_reused, net.stats.requests_retried), (2, 1, 0));
    assert_eq!(net.stats.conns_established, 1);
    // The other slot dials for itself, from the next port.
    net.ok(1, &sink);
    assert!(net.server.worker_mut().conn(1).unwrap().src_port() > port);
    assert_eq!(net.stats.conns_established, 2);
}

#[test]
fn a_closed_kept_connection_is_dialled_again_once() {
    let script = vec![Far::Reply(OK), Far::Close, Far::Reply(OK)];
    let mut net = Net::new(http_peer(), plain_client(), None, script);
    let sink = Shared::new(16);
    net.ok(0, &sink);
    let g = net.ok(0, &sink);
    assert_eq!((g.status, g.written), (200, 5));
    assert_eq!(*sink.seen.borrow(), b"hello");
    assert_eq!(net.requests.len(), 3);
    assert_eq!((net.stats.requests_reused, net.stats.requests_retried, net.stats.requests_done), (1, 1, 2));
}

#[test]
fn a_second_failure_is_the_answer() {
    let script = vec![Far::Reply(OK), Far::Close, Far::Close];
    let mut net = Net::new(http_peer(), plain_client(), None, script);
    let sink = Shared::new(16);
    net.ok(0, &sink);
    let done = net.get(0, GET, &sink).unwrap();
    assert_eq!(done.result, Err(Error::BadResponse));
    assert_eq!(net.stats.requests_retried, 1);
    assert!(net.server.worker_mut().conn(0).is_none());
}

#[test]
fn a_failure_on_a_new_connection_is_the_answer() {
    let mut net = Net::new(http_peer(), plain_client(), None, vec![Far::Close]);
    let sink = Shared::new(16);
    let done = net.get(1, GET, &sink).unwrap();
    assert_eq!(done.id, 41);
    assert_eq!(done.result, Err(Error::BadResponse));
    assert_eq!((net.stats.requests_retried, net.stats.requests_done), (0, 1));
}

#[test]
fn a_body_that_does_not_fit() {
    let mut net = Net::new(http_peer(), plain_client(), None, vec![Far::Reply(OK)]);
    let sink = Shared::new(4);
    let done = net.get(0, GET, &sink).unwrap();
    assert_eq!(done.result, Err(Error::BufferTooSmall));
    assert_eq!(*sink.seen.borrow(), b"hell");
    assert_eq!(net.stats.body_bytes, 0);
}

#[test]
fn nobody_answers_the_syn() {
    // Nothing listens for long enough: the far sockets are gone.
    let mut net = Net::new(http_peer(), plain_client(), None, vec![]);
    let mut worker = {
        let handle = stack().handle(0).unwrap();
        let mut cfg = WorkerConfig::new(http_peer());
        cfg.rx_buffer = 4096;
        match Worker::<Shared>::new(&handle, &cfg, plain_client()) {
            Ok(w) => w,
            Err(e) => panic!("{:?}", e),
        }
    };
    let r = worker.connect_next(0, GET, Shared::new(1), net.iface.context(), &mut net.stats, &|| 1_000);
    assert_eq!(r, Ok(()));
    assert_eq!(net.stats.dial.max_ns, 0);
    // In use: it cannot be dialled again before it is released.
    let r = worker.connect_next(0, GET, Shared::new(1), net.iface.context(), &mut net.stats, &|| 2_000);
    assert_eq!(r, Err(Error::ConnectRejected));
    let r = worker.connect_next(9, GET, Shared::new(1), net.iface.context(), &mut net.stats, &|| 2_000);
    assert_eq!(r, Err(Error::ConnectRejected));
    let clock = || 6_000_000_000u64;
    worker.finish_poll(&mut net.stats, 5_999_999_000, 6_000_000_000, false, &clock);
    assert_eq!(worker.conn(0).unwrap().outcome(), Some(Step::Failed(Error::SynTimeout)));
    assert_eq!((worker.last_busy_ns(), worker.last_iface_ns(), worker.last_active()), (1000, 1000, false));
    worker.release(0);
    assert!(worker.conn(0).is_none());
    assert!(worker.conn_mut(0).is_none());
    assert_eq!(worker.reuse(0, GET, Shared::new(1), &mut net.stats, 7), Err(Error::ConnectRejected));
    let r = worker.connect_next(0, GET, Shared::new(1), net.iface.context(), &mut net.stats, &|| 8_000);
    assert_eq!(r, Ok(()));
}

#[test]
fn ports_and_slots() {
    let handle = stack().handle(0).unwrap();
    let mut cfg = WorkerConfig::new(http_peer());
    cfg.rx_buffer = 16;
    cfg.tx_buffer = 16;
    cfg.conns = 3;
    let mut w: Worker<BufferSink<'static>> = match Worker::new(&handle, &cfg, plain_client()) {
        Ok(w) => w,
        Err(e) => panic!("{:?}", e),
    };
    assert_eq!(w.slots(), 3);
    let sockets = w.poll_parts().1;
    assert_eq!(sockets.iter().count(), 3);
    for (_, s) in sockets.iter() {
        match s {
            smoltcp::socket::Socket::Tcp(s) => {
                assert_eq!(s.state(), tcp::State::Closed);
                assert_eq!((s.recv_capacity(), s.send_capacity()), (16, 16));
                assert_eq!(s.ack_delay(), None);
            }
            _ => panic!("not a TCP socket"),
        }
    }
    cfg.conns = 0;
    match Worker::<Shared>::new(&handle, &cfg, plain_client()) {
        Ok(_) => panic!("a worker without connections"),
        Err(e) => assert_eq!(e, Error::NoPorts),
    }
}

#[test]
fn an_interface_without_an_address() {
    let mut net = Net::new(http_peer(), plain_client(), None, vec![]);
    net.iface.update_ip_addrs(|a| a.clear());
    let done = net.get(0, GET, &Shared::new(1)).unwrap();
    assert_eq!(done.result, Err(Error::ConnectRejected));
    assert_eq!(net.stats.requests_served, 0);
}

#[test]
fn an_unspecified_peer() {
    let mut net = Net::new(Endpoint::new([0; 4], "h", false), plain_client(), None, vec![]);
    let done = net.get(0, GET, &Shared::new(1)).unwrap();
    assert_eq!(done.result, Err(Error::ConnectRejected));
}

fn https_peer(host: &str) -> Endpoint {
    Endpoint::new(US, host, true)
}

#[test]
fn over_tls() {
    let (client, far) = tls_pair("h.example");
    let mut net = Net::new(https_peer("h.example"), client, Some(far), vec![Far::Reply(OK); 2]);
    let sink = Shared::new(16);
    let g = net.ok(0, &sink);
    assert_eq!((g.status, g.written), (200, 5));
    assert_eq!(*sink.seen.borrow(), b"hello");
    assert_eq!(net.requests, [GET.to_vec()]);
    // And again in the same session.
    let g = net.ok(0, &sink);
    assert_eq!((g.status, g.written), (200, 5));
    assert_eq!(net.requests.len(), 2);
    assert_eq!(net.stats.requests_reused, 1);
    // Nothing went out in the clear.
    assert!(!net.raw.is_empty());
    assert!(!net.raw.windows(4).any(|w| w == b"GET "));
}

#[test]
fn a_long_body_over_tls() {
    let (client, far) = tls_pair("h.example");
    let mut reply = b"HTTP/1.1 200 OK\r\nContent-Length: 100000\r\n\r\n".to_vec();
    let want: Vec<u8> = (0..100_000u32).map(|i| (i % 253) as u8).collect();
    reply.extend_from_slice(&want);
    let reply: &'static [u8] = Box::leak(reply.into_boxed_slice());
    let mut net = Net::new(https_peer("h.example"), client, Some(far), vec![Far::Reply(reply)]);
    let sink = Shared::new(200_000);
    let g = net.ok(0, &sink);
    assert_eq!(g.written, 100_000);
    assert_eq!(*sink.seen.borrow(), want);
}

#[test]
fn a_certificate_for_someone_else() {
    let (client, far) = tls_pair("other.example");
    let mut net = Net::new(https_peer("h.example"), client, Some(far), vec![Far::Reply(OK)]);
    let sink = Shared::new(16);
    let done = net.get(0, GET, &sink).unwrap();
    assert_eq!(done.result, Err(Error::Tls));
    assert!(net.requests.is_empty());
}

#[test]
fn a_host_that_is_no_server_name() {
    let (client, far) = tls_pair("h.example");
    let mut net = Net::new(https_peer("no host!"), client, Some(far), vec![]);
    let sink = Shared::new(16);
    let done = net.get(0, GET, &sink).unwrap();
    assert_eq!(done.result, Err(Error::Tls));
    assert_eq!(net.stats.requests_served, 0);
}

#[test]
fn a_broken_answer_over_tls() {
    let (client, far) = tls_pair("h.example");
    let script = vec![Far::Reply(b"HTTP/1.1 200 OK\r\nTransfer-Encoding: chunked\r\n\r\n")];
    let mut net = Net::new(https_peer("h.example"), client, Some(far), script);
    let sink = Shared::new(16);
    let done = net.get(0, GET, &sink).unwrap();
    assert_eq!(done.result, Err(Error::BadResponse));
}
