//! What the C ABI computes.

use mininet::capi::{
    check_get, check_up, code, conn_stats, host_z, parse_ipv4, plan_up, set_cstr, strerror, Response, UpArgs,
    DATE_MAX, ETAG_MAX, E_BAD_ARGUMENT, E_NOT_UP, MAX_SANE_CAP, OK,
};
use mininet::stats::{snapshot, Counters};
use mininet::{ContentRange, Error, GetResult};

#[test]
fn dotted_quads() {
    assert_eq!(parse_ipv4("3.5.216.240"), Some([3, 5, 216, 240]));
    assert_eq!(parse_ipv4("0.0.0.0"), Some([0; 4]));
    assert_eq!(parse_ipv4("255.001.0.1"), Some([255, 1, 0, 1]));
    for s in [
        "256.1.1.1", "1.2.3", "1.2.3.4.5", "1..2.3", "a.b.c.d", "", ".", "1.2.3.", ".1.2.3", "1.2.3.-4",
        "1.2.3.4 ", "99999999999999999999.1.1.1",
    ] {
        assert_eq!(parse_ipv4(s), None, "{}", s);
    }
}

#[test]
fn c_strings() {
    let mut dst = [0x7fu8; 8];
    set_cstr(&mut dst, Some("abc"));
    assert_eq!(&dst, b"abc\0\0\0\0\0");
    set_cstr(&mut dst, Some("0123456789"));
    assert_eq!(&dst, b"0123456\0");
    set_cstr(&mut dst, None);
    assert_eq!(dst, [0; 8]);
    let mut nowhere: [u8; 0] = [];
    set_cstr(&mut nowhere, None);
    let mut one = [7u8; 1];
    set_cstr(&mut one, Some("x"));
    assert_eq!(one, [0]);
    assert_eq!(host_z("h.example"), b"h.example\0");
}

#[test]
fn codes_and_messages() {
    let all = [
        (Error::NoDevice, -1, "no usable NIC\0"),
        (Error::NoMemory, -2, "out of memory\0"),
        (Error::RssUnavailable, -3, "RSS key or indirection table unavailable\0"),
        (Error::DhcpTimeout, -4, "DHCP timed out\0"),
        (Error::ArpTimeout, -5, "gateway ARP timed out\0"),
        (Error::NoPorts, -6, "no ephemeral port steers to this queue\0"),
        (Error::ConnectRejected, -7, "connect rejected\0"),
        (Error::SynTimeout, -8, "SYN timeout: no SYN-ACK\0"),
        (Error::Tls, -9, "TLS failure\0"),
        (Error::BadResponse, -10, "malformed or unsupported HTTP response\0"),
        (Error::BufferTooSmall, -11, "response body exceeded the buffer\0"),
    ];
    for (e, rc, text) in all {
        assert_eq!(code(e), rc);
        assert_eq!(strerror(rc), text);
    }
    assert_eq!(strerror(0), "ok\0");
    assert_eq!(strerror(-12), "mininet is not up\0");
    assert_eq!(strerror(-13), "bad argument\0");
    assert_eq!(strerror(-14), "unknown error\0");
    assert_eq!(strerror(1), "unknown error\0");
}

#[test]
fn what_is_brought_up() {
    let args = UpArgs {
        host: Some("h.example"),
        address: Some("10.1.2.3"),
        tls: 1,
        workers: 0,
        conns_per_worker: 0,
        rx_buffer: 0,
    };
    let p = match plan_up(&args) {
        Ok(p) => p,
        Err(rc) => panic!("{}", rc),
    };
    assert_eq!(p.service.peer.ip, [10, 1, 2, 3]);
    assert_eq!(p.service.peer.host, "h.example");
    assert!(p.service.peer.tls);
    assert_eq!(p.service.peer.port, 443);
    assert_eq!(p.stack.queues, 1);
    assert_eq!(p.stack.rx_desc, 0);
    assert_eq!(p.service.conns_per_worker, 1);
    assert_eq!(p.service.rx_buffer, 4 * 1024 * 1024);
    assert_eq!(p.service.tx_buffer, 32 * 1024);

    let p = match plan_up(&UpArgs { tls: 0, workers: 65537, conns_per_worker: 3, rx_buffer: 99, ..args }) {
        Ok(p) => p,
        Err(rc) => panic!("{}", rc),
    };
    assert_eq!(p.service.peer.port, 80);
    assert_eq!(p.stack.queues, 1);
    assert_eq!(p.service.conns_per_worker, 3);
    assert_eq!(p.service.rx_buffer, 99);
}

#[test]
fn bad_arguments() {
    for (host, address) in [
        (None, Some("1.2.3.4")),
        (Some(""), Some("1.2.3.4")),
        (Some("h"), None),
        (Some("h"), Some("1.2.3")),
    ] {
        let args = UpArgs { host, address, tls: 0, workers: 1, conns_per_worker: 1, rx_buffer: 0 };
        assert_eq!(plan_up(&args).err(), Some(E_BAD_ARGUMENT));
    }
    assert_eq!(check_up(true, true), Some(E_BAD_ARGUMENT));
    assert_eq!(check_up(true, false), Some(E_BAD_ARGUMENT));
    assert_eq!(check_up(false, true), Some(OK));
    assert_eq!(check_up(false, false), None);
    assert_eq!(check_get(false, true, true, 5), E_NOT_UP);
    assert_eq!(check_get(true, true, false, 5), E_BAD_ARGUMENT);
    assert_eq!(check_get(true, false, true, 5), E_BAD_ARGUMENT);
    assert_eq!(check_get(true, false, true, 0), OK);
    assert_eq!(check_get(true, false, false, MAX_SANE_CAP), OK);
    assert_eq!(check_get(true, false, false, MAX_SANE_CAP + 1), E_BAD_ARGUMENT);
}

#[test]
fn responses() {
    let mut r = Response {
        status: 9,
        content_length: 9,
        bytes: 9,
        has_range: 9,
        range_first: 9,
        range_last: 9,
        range_total: 9,
        etag: [9; ETAG_MAX],
        last_modified: [9; DATE_MAX],
    };
    let got = GetResult {
        status: 206,
        written: 5,
        content_length: Some(7),
        content_range: Some(ContentRange { first: 1, last: 2, total: None }),
        etag: Some("\"e\"".to_string()),
        last_modified: None,
    };
    assert_eq!(r.fill(&Ok(got.clone())), OK);
    assert_eq!((r.status, r.content_length, r.bytes), (206, 7, 5));
    assert_eq!((r.has_range, r.range_first, r.range_last, r.range_total), (1, 1, 2, 0));
    assert_eq!(&r.etag[..4], b"\"e\"\0");
    assert_eq!(r.last_modified, [0; DATE_MAX]);

    assert_eq!(r.fill(&Err(Error::Tls)), -9);
    assert_eq!((r.status, r.content_length, r.bytes, r.has_range), (0, 0, 0, 0));
    assert_eq!(r.etag, [0; ETAG_MAX]);

    let bare = GetResult { content_length: None, content_range: None, ..got };
    assert_eq!(r.fill(&Ok(bare)), OK);
    assert_eq!((r.content_length, r.has_range, r.range_first), (0, 0, 0));
}

#[test]
fn kept_connections() {
    let mut c = Counters::default();
    c.request_started(false);
    c.request_started(true);
    c.request_started(true);
    let s = conn_stats(&snapshot(&c, None));
    assert_eq!((s.requests_served, s.requests_reused), (3, 2));
}
