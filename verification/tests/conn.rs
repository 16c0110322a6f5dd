//! HTTP over a loopback connection: a client connection and a scripted server on
//! one interface.

use smoltcp::iface::{Config, Interface, SocketHandle, SocketSet};
use smoltcp::phy::{Loopback, Medium};
use smoltcp::socket::tcp;
use smoltcp::time::Instant;
use smoltcp::wire::{EthernetAddress, IpAddress, IpCidr, Ipv4Address};

use mininet::conn::ConnBufs;
use mininet::exchange::{has_body, is_head_request};
use mininet::stats::Counters;
use mininet::{BodySink, BufferSink, Conn, Error, Step};

#[derive(Clone, Copy, PartialEq, Eq)]
enum Server {
    /// Answer and keep the connection.
    Reply,
    /// Answer, then close: the body ends with the FIN.
    ReplyThenClose,
    /// Close without answering.
    Close,
    /// Never answer.
    Silent,
}

struct Env {
    dev: Loopback,
    iface: Interface,
    sockets: SocketSet<'static>,
    server: SocketHandle,
    client: SocketHandle,
    stats: Counters,
    now_ms: i64,
}

fn socket(n: usize) -> tcp::Socket<'static> {
    tcp::Socket::new(tcp::SocketBuffer::new(vec![0; n]), tcp::SocketBuffer::new(vec![0; n]))
}

impl Env {
    fn new() -> Env {
        Env::with_buffers(65536)
    }

    fn with_buffers(client_buffer: usize) -> Env {
        let mut dev = Loopback::new(Medium::Ethernet);
        let mut iface = Interface::new(
            Config::new(EthernetAddress([2, 0, 0, 0, 0, 1]).into()),
            &mut dev,
            Instant::from_millis(0),
        );
        iface.update_ip_addrs(|a| {
            let _ = a.push(IpCidr::new(IpAddress::v4(127, 0, 0, 1), 8));
        });
        let mut sockets = SocketSet::new(Vec::new());
        let server = sockets.add(socket(65536));
        let client = sockets.add(socket(client_buffer));
        sockets.get_mut::<tcp::Socket>(server).listen(80).unwrap();
        Env { dev, iface, sockets, server, client, stats: Counters::default(), now_ms: 0 }
    }

    fn connect<S: BodySink>(&mut self, head: &[u8], sink: S) -> Conn<S> {
        let dst = (Ipv4Address::new(127, 0, 0, 1), 80);
        self.sockets
            .get_mut::<tcp::Socket>(self.client)
            .connect(self.iface.context(), dst, 49152)
            .unwrap();
        Conn::new(self.client, 0, 49152, None, head, sink, ConnBufs::new(), self.now_ns())
    }

    fn now_ns(&self) -> u64 {
        self.now_ms as u64 * 1_000_000
    }

    /// One step of the connection at the current time, no packets moved.
    fn step<S: BodySink>(&mut self, conn: &mut Conn<S>) -> Step {
        let now = self.now_ns();
        conn.step(&mut self.sockets, &mut self.stats, now)
    }

    fn reusable<S: BodySink>(&self, conn: &Conn<S>) -> bool {
        conn.idle_reusable(&self.sockets)
    }

    /// Poll until the connection settles, or 2000 ms pass.
    fn drive<S: BodySink>(&mut self, conn: &mut Conn<S>, reply: &[u8], server: Server) -> Step {
        let mut got = Vec::new();
        let mut answered = false;
        for _ in 0..2000 {
            self.now_ms += 1;
            self.iface.poll(Instant::from_millis(self.now_ms), &mut self.dev, &mut self.sockets);
            let s = self.sockets.get_mut::<tcp::Socket>(self.server);
            if s.can_recv() {
                let _ = s.recv(|b| {
                    got.extend_from_slice(b);
                    (b.len(), ())
                });
            }
            if !answered && got.windows(4).any(|w| w == b"\r\n\r\n") {
                answered = true;
                match server {
                    Server::Silent => {}
                    Server::Close => s.close(),
                    Server::Reply | Server::ReplyThenClose => {
                        s.send_slice(reply).unwrap();
                        if server == Server::ReplyThenClose {
                            s.close();
                        }
                    }
                }
            }
            let step = self.step(conn);
            if step != Step::Pending {
                return step;
            }
        }
        Step::Pending
    }
}

const GET: &[u8] = b"GET /x HTTP/1.1\r\nHost: h\r\nRange: bytes=0-4\r\n\r\n";

#[test]
fn ranged_get_and_reuse() {
    let mut env = Env::new();
    let mut one = [0u8; 5];
    let mut two = [0u8; 5];
    {
        let mut conn = env.connect(GET, BufferSink::new(&mut one));
        assert!(!conn.established());
        let step = env.drive(
            &mut conn,
            b"HTTP/1.1 206 Partial Content\r\nContent-Length: 5\r\nContent-Range: bytes 0-4/100\r\nETag: \"e1\"\r\n\r\nhello",
            Server::Reply,
        );
        assert_eq!(step, Step::Complete);
        assert_eq!(conn.outcome(), Some(Step::Complete));
        assert!(conn.established());
        assert_eq!(conn.status(), 206);
        assert_eq!(conn.sink_written(), 5);
        assert_eq!(conn.head().content_range.map(|c| c.total), Some(Some(100)));
        assert_eq!(conn.head().etag.as_deref(), Some("\"e1\""));
        assert!(conn.head_ns().is_some());
        assert!(env.reusable(&conn));

        conn.reset_for(GET, BufferSink::new(&mut two), env.now_ns());
        assert_eq!(conn.outcome(), None);
        assert_eq!(conn.head_ns(), None);
        assert_eq!(conn.status(), 0);
        let step = env.drive(
            &mut conn,
            b"HTTP/1.1 206 Partial Content\r\nContent-Length: 5\r\n\r\nworld",
            Server::Reply,
        );
        assert_eq!(step, Step::Complete);
        assert!(env.reusable(&conn));
    }
    assert_eq!(&one, b"hello");
    assert_eq!(&two, b"world");
    assert_eq!(env.stats.conns_established, 1);
    assert_eq!(env.stats.conns_failed, 0);
}

#[test]
fn fin_ends_a_body_without_a_length() {
    let mut env = Env::new();
    let mut body = [0u8; 6];
    {
        let mut conn = env.connect(GET, BufferSink::new(&mut body));
        let step = env.drive(&mut conn, b"HTTP/1.1 200 OK\r\n\r\nabcdef", Server::ReplyThenClose);
        assert_eq!(step, Step::Complete);
        assert!(!env.reusable(&conn));
    }
    assert_eq!(&body, b"abcdef");
}

#[test]
fn a_kept_connection_lets_go_of_its_sink() {
    let mut env = Env::new();
    let mut body = [0u8; 8];
    let mut nothing = [0u8; 0];
    let mut conn = env.connect(GET, BufferSink::new(&mut body));
    let reply = b"HTTP/1.1 200 OK\r\nContent-Length: 3\r\n\r\nabc";
    assert_eq!(env.drive(&mut conn, reply, Server::Reply), Step::Complete);
    let was = conn.swap_sink(BufferSink::new(&mut nothing));
    assert_eq!(was.written(), 3);
    assert_eq!(conn.sink_written(), 0);
    assert_eq!(conn.outcome(), Some(Step::Complete));
    assert!(env.reusable(&conn));
    drop(was);
    drop(conn);
    assert_eq!(&body[..3], b"abc");
}

#[test]
fn fin_does_not_end_an_announced_body() {
    let mut env = Env::new();
    let mut body = [0u8; 8];
    {
        let mut conn = env.connect(GET, BufferSink::new(&mut body));
        let reply = b"HTTP/1.1 200 OK\r\nContent-Length: 8\r\n\r\nabc";
        let step = env.drive(&mut conn, reply, Server::ReplyThenClose);
        assert_eq!(step, Step::Failed(Error::BadResponse));
        assert_eq!(conn.outcome(), Some(Step::Failed(Error::BadResponse)));
        assert!(!env.reusable(&conn));
    }
    assert_eq!(&body[..3], b"abc");
}

#[test]
fn fin_after_an_announced_body_changes_nothing() {
    let mut env = Env::new();
    let mut body = [0u8; 3];
    {
        let mut conn = env.connect(GET, BufferSink::new(&mut body));
        let reply = b"HTTP/1.1 200 OK\r\nContent-Length: 3\r\n\r\nabc";
        let step = env.drive(&mut conn, reply, Server::ReplyThenClose);
        assert_eq!(step, Step::Complete);
    }
    assert_eq!(&body, b"abc");
}

#[test]
fn close_before_any_head_is_a_failure() {
    let mut env = Env::new();
    let mut body = [0u8; 4];
    let mut conn = env.connect(GET, BufferSink::new(&mut body));
    let step = env.drive(&mut conn, b"", Server::Close);
    assert_eq!(step, Step::Failed(Error::BadResponse));
    // It stays that way.
    assert_eq!(env.step(&mut conn), Step::Failed(Error::BadResponse));
}

#[test]
fn unanswered_syn_times_out() {
    let mut env = Env::new();
    let mut body = [0u8; 4];
    let mut conn = env.connect(GET, BufferSink::new(&mut body));
    env.now_ms += 4_999;
    assert_eq!(env.step(&mut conn), Step::Pending);
    assert_eq!(env.stats.conns_failed, 0);
    env.now_ms += 1;
    assert_eq!(env.step(&mut conn), Step::Pending);
    env.now_ms += 1;
    assert_eq!(env.step(&mut conn), Step::Failed(Error::SynTimeout));
    assert!(!conn.established());
    assert_eq!(env.stats.conns_failed, 1);
    assert_eq!(env.stats.conns_established, 0);
    assert_eq!(env.stats.setup.max_ns, 0);
    assert_eq!(env.sockets.get::<tcp::Socket>(env.client).state(), tcp::State::Closed);
    assert_eq!(env.step(&mut conn), Step::Failed(Error::SynTimeout));
    assert_eq!(env.stats.conns_failed, 1);
}

#[test]
fn head_completes_without_a_body() {
    let mut env = Env::new();
    let mut body = [0u8; 0];
    let mut conn = env.connect(b"HEAD /x HTTP/1.1\r\nHost: h\r\n\r\n", BufferSink::new(&mut body));
    let step = env.drive(&mut conn, b"HTTP/1.1 200 OK\r\nContent-Length: 1234\r\n\r\n", Server::Reply);
    assert_eq!(step, Step::Complete);
    assert_eq!(conn.head().content_length, Some(1234));
    assert_eq!(conn.sink_written(), 0);
}

#[test]
fn status_204_completes() {
    let mut env = Env::new();
    let mut body = [0u8; 0];
    let mut conn = env.connect(GET, BufferSink::new(&mut body));
    let step = env.drive(&mut conn, b"HTTP/1.1 204 No Content\r\n\r\n", Server::Reply);
    assert_eq!(step, Step::Complete);
}

#[test]
fn short_body_stays_pending() {
    let mut env = Env::new();
    let mut body = [0u8; 8];
    {
        let mut conn = env.connect(GET, BufferSink::new(&mut body));
        let step =
            env.drive(&mut conn, b"HTTP/1.1 200 OK\r\nContent-Length: 8\r\n\r\nabc", Server::Reply);
        assert_eq!(step, Step::Pending);
        let step = env.drive(&mut conn, b"", Server::Silent);
        assert_eq!(step, Step::Pending);
        assert_eq!(conn.outcome(), None);
    }
    assert_eq!(&body[..3], b"abc");
}

#[test]
fn oversize_body_is_flagged() {
    let mut env = Env::new();
    let mut body = [0u8; 2];
    {
        let mut conn = env.connect(GET, BufferSink::new(&mut body));
        let step =
            env.drive(&mut conn, b"HTTP/1.1 200 OK\r\nContent-Length: 5\r\n\r\nhello", Server::Reply);
        assert_eq!(step, Step::Complete);
        assert!(conn.sink_overflowed());
    }
    assert_eq!(&body, b"he");
}

#[test]
fn malformed_response_is_a_failure() {
    let mut env = Env::new();
    let mut body = [0u8; 2];
    let mut conn = env.connect(GET, BufferSink::new(&mut body));
    let step = env.drive(&mut conn, b"ICY 200 OK\r\n\r\n", Server::Reply);
    assert_eq!(step, Step::Failed(Error::BadResponse));
}

#[test]
fn first_head_byte_is_timed() {
    let mut env = Env::new();
    let mut body = [0u8; 2];
    let mut conn = env.connect(GET, BufferSink::new(&mut body));
    let step = env.drive(&mut conn, b"HTTP/1.1 200 OK\r\n", Server::Reply);
    assert_eq!(step, Step::Pending);
    let first = conn.head_ns().unwrap();
    assert!(first < env.now_ns());
    assert_eq!(conn.status(), 0);
    let s = env.sockets.get_mut::<tcp::Socket>(env.server);
    s.send_slice(b"Content-Length: 0\r\n\r\n").unwrap();
    let step = env.drive(&mut conn, b"", Server::Silent);
    assert_eq!(step, Step::Complete);
    assert_eq!(conn.head_ns(), Some(first));
}

/// Small rings, so that requests and responses pass in several pieces, each of
/// which wraps around.
#[test]
fn long_request_and_response_in_pieces() {
    let mut env = Env::with_buffers(1000);
    let mut head = b"GET /".to_vec();
    head.resize(5000, b'a');
    head.extend_from_slice(b" HTTP/1.1\r\n\r\n");
    let mut reply = b"HTTP/1.1 200 OK\r\nContent-Length: 9000\r\n\r\n".to_vec();
    let want: Vec<u8> = (0..9000u32).map(|i| (i % 251) as u8).collect();
    reply.extend_from_slice(&want);
    let mut body = vec![0u8; 9000];
    {
        let mut conn = env.connect(&head, BufferSink::new(&mut body));
        let step = env.drive(&mut conn, &reply, Server::Reply);
        assert_eq!(step, Step::Complete);
        assert_eq!(conn.sink_written(), 9000);
        assert!(!conn.sink_overflowed());
    }
    assert_eq!(body, want);
}

#[test]
fn which_responses_have_a_body() {
    assert!(has_body(200, false));
    assert!(has_body(404, false));
    assert!(has_body(99, false));
    for status in [100, 101, 199, 204, 304] {
        assert!(!has_body(status, false));
    }
    assert!(!has_body(200, true));
    assert!(is_head_request(b"HEAD / HTTP/1.1\r\n\r\n"));
    assert!(!is_head_request(b"HEADER / HTTP/1.1\r\n\r\n"));
    assert!(!is_head_request(b"head / HTTP/1.1\r\n\r\n"));
    assert!(!is_head_request(b"HEAD"));
}
