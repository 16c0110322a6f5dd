//! What the C ABI computes. Only integers, pointers and NUL-terminated strings
//! cross there; here they are plain values.

use vstd::prelude::*;
use vstd::string::*;
use vstd::utf8;

use crate::endpoint::Endpoint;
use crate::error::Error;
use crate::service::{GetResult, ServiceConfig};
use crate::stats::Stats;
use crate::text;
use crate::Config;

verus! {

/// Error codes, mirrored in mininet.hh. Negative so a caller can test `< 0` the
/// way it would an errno, without the values having to *be* errnos -- none of
/// these have a sensible POSIX spelling.
pub const OK: i32 = 0;

pub const E_NO_DEVICE: i32 = -1;

pub const E_NO_MEMORY: i32 = -2;

pub const E_RSS: i32 = -3;

pub const E_DHCP: i32 = -4;

pub const E_ARP: i32 = -5;

pub const E_NO_PORTS: i32 = -6;

pub const E_CONNECT: i32 = -7;

pub const E_SYN_TIMEOUT: i32 = -8;

pub const E_TLS: i32 = -9;

pub const E_BAD_RESPONSE: i32 = -10;

pub const E_BUFFER_TOO_SMALL: i32 = -11;

pub const E_NOT_UP: i32 = -12;

pub const E_BAD_ARGUMENT: i32 = -13;

/// The code of an error.
pub open spec fn code_of(e: Error) -> i32 {
    match e {
        Error::NoDevice => E_NO_DEVICE,
        Error::NoMemory => E_NO_MEMORY,
        Error::RssUnavailable => E_RSS,
        Error::DhcpTimeout => E_DHCP,
        Error::ArpTimeout => E_ARP,
        Error::NoPorts => E_NO_PORTS,
        Error::ConnectRejected => E_CONNECT,
        Error::SynTimeout => E_SYN_TIMEOUT,
        Error::Tls => E_TLS,
        Error::BadResponse => E_BAD_RESPONSE,
        Error::BufferTooSmall => E_BUFFER_TOO_SMALL,
    }
}

pub fn code(e: Error) -> (r: i32)
    ensures
        r == code_of(e),
{
    match e {
        Error::NoDevice => E_NO_DEVICE,
        Error::NoMemory => E_NO_MEMORY,
        Error::RssUnavailable => E_RSS,
        Error::DhcpTimeout => E_DHCP,
        Error::ArpTimeout => E_ARP,
        Error::NoPorts => E_NO_PORTS,
        Error::ConnectRejected => E_CONNECT,
        Error::SynTimeout => E_SYN_TIMEOUT,
        Error::Tls => E_TLS,
        Error::BadResponse => E_BAD_RESPONSE,
        Error::BufferTooSmall => E_BUFFER_TOO_SMALL,
    }
}

/// Every error has a code of its own, and none is taken for success, for a stack
/// that is not up or for a bad argument.
pub proof fn law_codes_tell_apart(a: Error, b: Error)
    ensures
        code_of(a) == code_of(b) ==> a == b,
        code_of(a) < OK,
        code_of(a) != E_NOT_UP,
        code_of(a) != E_BAD_ARGUMENT,
{
}

/// What a code means, with the NUL that ends it in C.
pub open spec fn message_of(rc: i32) -> Seq<char> {
    if rc == OK {
        "ok\0"@
    } else if rc == E_NO_DEVICE {
        "no usable NIC\0"@
    } else if rc == E_NO_MEMORY {
        "out of memory\0"@
    } else if rc == E_RSS {
        "RSS key or indirection table unavailable\0"@
    } else if rc == E_DHCP {
        "DHCP timed out\0"@
    } else if rc == E_ARP {
        "gateway ARP timed out\0"@
    } else if rc == E_NO_PORTS {
        "no ephemeral port steers to this queue\0"@
    } else if rc == E_CONNECT {
        "connect rejected\0"@
    } else if rc == E_SYN_TIMEOUT {
        "SYN timeout: no SYN-ACK\0"@
    } else if rc == E_TLS {
        "TLS failure\0"@
    } else if rc == E_BAD_RESPONSE {
        "malformed or unsupported HTTP response\0"@
    } else if rc == E_BUFFER_TOO_SMALL {
        "response body exceeded the buffer\0"@
    } else if rc == E_NOT_UP {
        "mininet is not up\0"@
    } else if rc == E_BAD_ARGUMENT {
        "bad argument\0"@
    } else {
        "unknown error\0"@
    }
}

/// What a code means; there is an answer for every one.
pub fn strerror(rc: i32) -> (s: &'static str)
    ensures
        s@ == message_of(rc),
{
    if rc == OK {
        "ok\0"
    } else if rc == E_NO_DEVICE {
        "no usable NIC\0"
    } else if rc == E_NO_MEMORY {
        "out of memory\0"
    } else if rc == E_RSS {
        "RSS key or indirection table unavailable\0"
    } else if rc == E_DHCP {
        "DHCP timed out\0"
    } else if rc == E_ARP {
        "gateway ARP timed out\0"
    } else if rc == E_NO_PORTS {
        "no ephemeral port steers to this queue\0"
    } else if rc == E_CONNECT {
        "connect rejected\0"
    } else if rc == E_SYN_TIMEOUT {
        "SYN timeout: no SYN-ACK\0"
    } else if rc == E_TLS {
        "TLS failure\0"
    } else if rc == E_BAD_RESPONSE {
        "malformed or unsupported HTTP response\0"
    } else if rc == E_BUFFER_TOO_SMALL {
        "response body exceeded the buffer\0"
    } else if rc == E_NOT_UP {
        "mininet is not up\0"
    } else if rc == E_BAD_ARGUMENT {
        "bad argument\0"
    } else {
        "unknown error\0"
    }
}

/// Longest texts in a response, with the NUL that ends them.
pub const ETAG_MAX: usize = 128;

pub const DATE_MAX: usize = 64;

/// `s` as a C string in `n` bytes: cut off where it is too long, and zeros behind it.
pub open spec fn c_string(s: Seq<u8>, n: int) -> Seq<u8> {
    Seq::new(
        n as nat,
        |i: int|
            if i < s.len() && i < n - 1 {
                s[i]
            } else {
                0
            },
    )
}

/// The bytes of an optional text; none are none.
pub open spec fn bytes_of(src: Option<&str>) -> Seq<u8> {
    match src {
        Some(s) => s.spec_bytes(),
        None => Seq::empty(),
    }
}

/// Writes a C string.
pub fn set_cstr(dst: &mut [u8], src: Option<&str>)
    requires
        src is Some ==> old(dst)@.len() > 0,
    ensures
        final(dst)@ == c_string(bytes_of(src), old(dst)@.len() as int),
{
    let empty: [u8; 0] = [];
    let src: &[u8] = match src {
        Some(s) => s.as_bytes(),
        None => &empty,
    };
    let cap: usize = dst.len();
    let mut i: usize = 0;
    while i < cap
        invariant
            i <= cap == dst@.len(),
            forall|k: int| 0 <= k < i ==> #[trigger] dst@[k] == c_string(src@, cap as int)[k],
        decreases cap - i,
    {
        dst[i] = if i < src.len() && i < cap - 1 {
            src[i]
        } else {
            0
        };
        i += 1;
    }
    assert(dst@ == c_string(src@, cap as int));
}

/// The end of a C string is always there, and what fits is all there.
pub proof fn law_c_string_ends(s: Seq<u8>, n: int)
    requires
        n > 0,
    ensures
        c_string(s, n)[n - 1] == 0,
        s.len() < n ==> c_string(s, n).take(s.len() as int) == s && c_string(s, n)[s.len() as int]
            == 0,
{
    if s.len() < n {
        assert(c_string(s, n).take(s.len() as int) == s);
    }
}

/// A field of a dotted quad: digits, and no more than 255.
pub open spec fn is_octet(s: Seq<u8>) -> bool {
    s.len() > 0 && text::all_digits(s) && text::decimal(s) <= 255
}

/// The address that a dotted quad spells.
pub open spec fn quad_of(s: Seq<u8>) -> Option<Seq<u8>> {
    let f = text::fields(s, 46);
    if f.len() == 4 && is_octet(f[0]) && is_octet(f[1]) && is_octet(f[2]) && is_octet(f[3]) {
        Some(
            seq![
                text::decimal(f[0]) as u8,
                text::decimal(f[1]) as u8,
                text::decimal(f[2]) as u8,
                text::decimal(f[3]) as u8,
            ],
        )
    } else {
        None
    }
}

proof fn lemma_decimal_prefix(s: Seq<u8>, n: int)
    requires
        text::all_digits(s),
        0 <= n <= s.len(),
    ensures
        text::decimal(s.take(n)) <= text::decimal(s),
    decreases s.len(),
{
    if n < s.len() {
        lemma_decimal_prefix(s.drop_last(), n);
        assert(s.drop_last().take(n) == s.take(n));
    } else {
        assert(s.take(n) == s);
    }
}

fn parse_octet(s: &[u8]) -> (r: Option<u8>)
    ensures
        r == (if is_octet(s@) {
            Some(text::decimal(s@) as u8)
        } else {
            None
        }),
{
    if s.len() == 0 {
        return None;
    }
    let mut v: u32 = 0;
    let mut i: usize = 0;
    while i < s.len()
        invariant
            i <= s@.len(),
            v <= 255,
            v == text::decimal(s@.take(i as int)),
            text::all_digits(s@.take(i as int)),
        decreases s@.len() - i,
    {
        let b: u8 = s[i];
        if !text::is_ascii_digit(b) {
            return None;
        }
        let ghost t = s@.take(i + 1);
        v = v * 10 + (b - 48) as u32;
        proof {
            assert(t.drop_last() == s@.take(i as int));
            assert(text::decimal(t) == v);
            assert forall|k: int| 0 <= k < t.len() implies text::is_digit(#[trigger] t[k]) by {
                if k < i {
                    assert(s@.take(i as int)[k] == t[k]);
                }
            }
        }
        if v > 255 {
            proof {
                if text::all_digits(s@) {
                    lemma_decimal_prefix(s@, i + 1);
                }
            }
            return None;
        }
        i += 1;
    }
    assert(s@.take(i as int) == s@);
    Some(v as u8)
}

/// Dotted quad, at run time.
pub fn parse_ipv4(s: &str) -> (r: Option<[u8; 4]>)
    ensures
        r is Some <==> quad_of(s.spec_bytes()) is Some,
        r matches Some(ip) ==> quad_of(s.spec_bytes()) == Some(ip@),
{
    let bytes = s.as_bytes();
    proof {
        text::lemma_fields_of_rest(bytes@, 46);
    }
    let (a, rest) = match text::split_once(bytes, 46) {
        Some(p) => p,
        None => return None,
    };
    proof {
        text::lemma_fields_of_rest(rest@, 46);
    }
    let (b, rest) = match text::split_once(rest, 46) {
        Some(p) => p,
        None => return None,
    };
    proof {
        text::lemma_fields_of_rest(rest@, 46);
    }
    let (c, d) = match text::split_once(rest, 46) {
        Some(p) => p,
        None => return None,
    };
    proof {
        text::lemma_fields_of_rest(d@, 46);
    }
    if text::find(d, 46) < d.len() {
        return None;
    }
    match (parse_octet(a), parse_octet(b), parse_octet(c), parse_octet(d)) {
        (Some(a), Some(b), Some(c), Some(d)) => {
            let ip: [u8; 4] = [a, b, c, d];
            assert(ip@ == quad_of(bytes@)->0);
            Some(ip)
        },
        _ => None,
    }
}

/// What a caller asks for when it brings the stack up; a text that is missing, or
/// no UTF-8, is `None`.
pub struct UpArgs<'a> {
    pub host: Option<&'a str>,
    pub address: Option<&'a str>,
    pub tls: i32,
    pub workers: u32,
    pub conns_per_worker: u32,
    pub rx_buffer: u64,
}

/// What is then brought up.
pub struct UpPlan {
    pub stack: Config,
    pub service: ServiceConfig,
}

/// The arguments name a host and an address.
pub open spec fn usable(args: UpArgs<'_>) -> bool {
    &&& args.host matches Some(h) && h@.len() > 0
    &&& args.address matches Some(a) && quad_of(a.spec_bytes()) is Some
}

/// What is answered to a caller who wants the stack up, before its arguments are
/// looked at: without arguments that cannot be done, and a stack that is up stays
/// as it is, whatever is asked. `None` goes on.
pub fn check_up(cfg_null: bool, is_up: bool) -> (r: Option<i32>)
    ensures
        r == (if cfg_null {
            Some(E_BAD_ARGUMENT)
        } else if is_up {
            Some(OK)
        } else {
            None
        }),
{
    if cfg_null {
        return Some(E_BAD_ARGUMENT);
    }
    if is_up {
        return Some(OK);
    }
    None
}

/// What is brought up for a caller's arguments. At least one worker, and at least
/// one connection each; without a size, the receive buffer is the usual one.
pub fn plan_up(args: &UpArgs<'_>) -> (r: Result<UpPlan, i32>)
    ensures
        r is Ok <==> usable(*args),
        match r {
            Ok(p) => {
                &&& p.service.peer.host@ == args.host->0@
                &&& p.service.peer.ip@ == quad_of(args.address->0.spec_bytes())->0
                &&& p.service.peer.tls == (args.tls != 0)
                &&& p.service.peer.port == (if args.tls != 0 {
                    443
                } else {
                    80int
                })
                &&& p.stack.queues == (if args.workers == 0 {
                    1
                } else {
                    args.workers as int % 65536
                })
                &&& p.stack.rx_desc == 0
                &&& p.service.conns_per_worker == (if args.conns_per_worker == 0 {
                    1
                } else {
                    args.conns_per_worker as usize
                })
                &&& p.service.rx_buffer == (if args.rx_buffer > 0 {
                    args.rx_buffer as usize
                } else {
                    4_194_304
                })
                &&& p.service.tx_buffer == 32 * 1024
            },
            Err(e) => e == E_BAD_ARGUMENT,
        },
{
    let host = match args.host {
        Some(h) => h,
        None => return Err(E_BAD_ARGUMENT),
    };
    if host.is_empty() {
        return Err(E_BAD_ARGUMENT);
    }
    let ip = match args.address {
        Some(a) => match parse_ipv4(a) {
            Some(ip) => ip,
            None => return Err(E_BAD_ARGUMENT),
        },
        None => return Err(E_BAD_ARGUMENT),
    };
    let peer = Endpoint::new(ip, host, args.tls != 0);
    let queues: u16 = if args.workers == 0 {
        1
    } else {
        (args.workers % 65536) as u16
    };
    let mut service = ServiceConfig::new(peer);
    service.conns_per_worker = if args.conns_per_worker == 0 {
        1
    } else {
        args.conns_per_worker as usize
    };
    if args.rx_buffer > 0 {
        service.rx_buffer = args.rx_buffer as usize;
    }
    Ok(UpPlan { stack: Config { queues, rx_desc: 0 }, service })
}

/// The host with the NUL that ends it in C.
pub fn host_z(host: &str) -> (v: Vec<u8>)
    ensures
        v@ == host.spec_bytes().push(0),
{
    let mut v: Vec<u8> = Vec::new();
    v.extend_from_slice(host.as_bytes());
    v.push(0);
    assert(v@ == host.spec_bytes().push(0));
    v
}

/// Everything behind a get writes through the caller's buffer on the strength of
/// the caller's word, and a capacity that does not match the allocation behind it
/// surfaces much later as a fault inside the sink. S3 answers a ranged GET and
/// httpfs sizes its reads in MiB, so a gigabyte-plus figure is a misparsed Range
/// header rather than a large read: it is refused where the argument is still
/// attributable to its caller.
pub const MAX_SANE_CAP: u64 = 1_073_741_824;

/// Whether a get with these arguments may go ahead.
pub fn check_get(is_up: bool, head_null: bool, buf_null: bool, cap: u64) -> (rc: i32)
    ensures
        rc == (if !is_up {
            E_NOT_UP
        } else if head_null || (buf_null && cap != 0) || cap > MAX_SANE_CAP {
            E_BAD_ARGUMENT
        } else {
            OK
        }),
{
    if !is_up {
        return E_NOT_UP;
    }
    if head_null || (buf_null && cap != 0) {
        return E_BAD_ARGUMENT;
    }
    if cap > MAX_SANE_CAP {
        return E_BAD_ARGUMENT;
    }
    OK
}

/// Mirrors `mininet::response`; the texts are C strings.
pub struct Response {
    pub status: u32,
    pub content_length: u64,
    pub bytes: u64,
    pub has_range: u32,
    pub range_first: u64,
    pub range_last: u64,
    pub range_total: u64,
    pub etag: [u8; ETAG_MAX],
    pub last_modified: [u8; DATE_MAX],
}

/// A number that may be missing; then it is 0.
pub open spec fn or_zero(n: Option<u64>) -> u64 {
    match n {
        Some(n) => n,
        None => 0,
    }
}

/// The bytes of an optional text; none are none.
pub open spec fn string_bytes(s: Option<String>) -> Seq<u8> {
    match s {
        Some(t) => utf8::encode_utf8(t@),
        None => Seq::empty(),
    }
}

impl Response {
    /// Writes what a get came to, and gives the code for it. A failed get leaves
    /// no figure but the range's, which then has nobody to say that it is there.
    pub fn fill(&mut self, r: &Result<GetResult, Error>) -> (rc: i32)
        ensures
            match r {
                Ok(g) => {
                    &&& rc == OK
                    &&& final(self).status == g.status
                    &&& final(self).content_length == or_zero(g.content_length)
                    &&& final(self).bytes == g.written
                    &&& final(self).etag@ == c_string(string_bytes(g.etag), ETAG_MAX as int)
                    &&& final(self).last_modified@ == c_string(
                        string_bytes(g.last_modified),
                        DATE_MAX as int,
                    )
                    &&& match g.content_range {
                        Some(cr) => {
                            &&& final(self).has_range == 1
                            &&& final(self).range_first == cr.first
                            &&& final(self).range_last == cr.last
                            &&& final(self).range_total == or_zero(cr.total)
                        },
                        None => {
                            &&& final(self).has_range == 0
                            &&& final(self).range_first == 0
                            &&& final(self).range_last == 0
                            &&& final(self).range_total == 0
                        },
                    }
                },
                Err(e) => {
                    &&& rc == code_of(*e)
                    &&& final(self).status == 0
                    &&& final(self).content_length == 0
                    &&& final(self).bytes == 0
                    &&& final(self).has_range == 0
                    &&& final(self).range_first == old(self).range_first
                    &&& final(self).range_last == old(self).range_last
                    &&& final(self).range_total == old(self).range_total
                    &&& final(self).etag@ == c_string(Seq::empty(), ETAG_MAX as int)
                    &&& final(self).last_modified@ == c_string(Seq::empty(), DATE_MAX as int)
                },
            },
    {
        match r {
            Ok(g) => {
                self.status = g.status as u32;
                self.content_length = match g.content_length {
                    Some(n) => n,
                    None => 0,
                };
                self.bytes = g.written;
                match g.content_range {
                    Some(cr) => {
                        self.has_range = 1;
                        self.range_first = cr.first;
                        self.range_last = cr.last;
                        self.range_total = match cr.total {
                            Some(n) => n,
                            None => 0,
                        };
                    },
                    None => {
                        self.has_range = 0;
                        self.range_first = 0;
                        self.range_last = 0;
                        self.range_total = 0;
                    },
                }
                set_cstr(
                    &mut self.etag,
                    match &g.etag {
                        Some(s) => Some(s.as_str()),
                        None => None,
                    },
                );
                set_cstr(
                    &mut self.last_modified,
                    match &g.last_modified {
                        Some(s) => Some(s.as_str()),
                        None => None,
                    },
                );
                OK
            },
            Err(e) => {
                self.status = 0;
                self.content_length = 0;
                self.bytes = 0;
                self.has_range = 0;
                set_cstr(&mut self.etag, None);
                set_cstr(&mut self.last_modified, None);
                code(*e)
            },
        }
    }
}

/// Mirrors `mininet::conn_stats`.
#[allow(non_camel_case_types)]
#[derive(Debug, Clone, Copy, PartialEq, Eq, Structural)]
pub struct mininet_conn_stats {
    pub requests_served: u64,
    pub requests_reused: u64,
}

/// Of all that is counted, how connections are kept.
pub fn conn_stats(s: &Stats) -> (r: mininet_conn_stats)
    ensures
        r.requests_served == s.requests_served,
        r.requests_reused == s.requests_reused,
{
    mininet_conn_stats { requests_served: s.requests_served, requests_reused: s.requests_reused }
}

} // verus!
