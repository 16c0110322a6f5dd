//! What crosses the C ABI: addresses as they are written down, codes and their
//! messages, and texts that end in a NUL.

use vstd::prelude::*;
use vstd::string::*;

use crate::capi;
use crate::capi::{UpArgs, UpPlan};
use crate::error::Error;
use crate::print;
use crate::text;
use crate::text_laws;

verus! {

/// Four texts with a dot between each two.
pub open spec fn dotted(a: Seq<u8>, b: Seq<u8>, c: Seq<u8>, d: Seq<u8>) -> Seq<u8> {
    a.push(46) + (b.push(46) + (c.push(46) + d))
}

/// At least one digit, and nothing else.
pub open spec fn digits(s: Seq<u8>) -> bool {
    s.len() > 0 && forall|i: int| 0 <= i < s.len() ==> 48 <= #[trigger] s[i] <= 57
}

proof fn lemma_octet(s: Seq<u8>)
    ensures
        capi::is_octet(s) <==> digits(s) && text::decimal(s) <= 255,
{
    if digits(s) {
        assert forall|i: int| 0 <= i < s.len() implies text::is_digit(#[trigger] s[i]) by {
            assert(48 <= s[i] <= 57);
        }
    }
    if text::all_digits(s) {
        assert forall|i: int| 0 <= i < s.len() implies 48 <= #[trigger] s[i] <= 57 by {
            assert(text::is_digit(s[i]));
        }
    }
}

/// Four numbers with dots between them are read as an address exactly if none is
/// above 255, and then it is theirs, in their order.
pub proof fn law_quad_is_read(a: Seq<u8>, b: Seq<u8>, c: Seq<u8>, d: Seq<u8>)
    requires
        digits(a),
        digits(b),
        digits(c),
        digits(d),
    ensures
        ({
            let (w, x, y, z) = (
                text::decimal(a),
                text::decimal(b),
                text::decimal(c),
                text::decimal(d),
            );
            capi::quad_of(dotted(a, b, c, d)) == (if w <= 255 && x <= 255 && y <= 255 && z <= 255 {
                Some(seq![w as u8, x as u8, y as u8, z as u8])
            } else {
                None
            })
        }),
{
    lemma_octet(a);
    lemma_octet(b);
    lemma_octet(c);
    lemma_octet(d);
    let cd = c.push(46) + d;
    let bcd = b.push(46) + cd;
    text_laws::law_cut_comes_apart(a, 46, bcd);
    text_laws::law_cut_comes_apart(b, 46, cd);
    text_laws::law_cut_comes_apart(c, 46, d);
    text_laws::law_cut_comes_apart(d, 46, d);
    let f = text::fields(dotted(a, b, c, d), 46);
    assert(f == seq![a, b, c, d]);
}

/// An address reads back as what was written.
pub proof fn law_quad_reads_back(a: u8, b: u8, c: u8, d: u8)
    ensures
        capi::quad_of(
            dotted(
                print::decimal_text(a as nat),
                print::decimal_text(b as nat),
                print::decimal_text(c as nat),
                print::decimal_text(d as nat),
            ),
        ) == Some(seq![a, b, c, d]),
{
    text_laws::lemma_decimal_text(a as nat);
    text_laws::lemma_decimal_text(b as nat);
    text_laws::lemma_decimal_text(c as nat);
    text_laws::lemma_decimal_text(d as nat);
    law_quad_is_read(
        print::decimal_text(a as nat),
        print::decimal_text(b as nat),
        print::decimal_text(c as nat),
        print::decimal_text(d as nat),
    );
}

/// Nothing else is read as an address: what is, is four numbers with dots between
/// them, none above 255.
pub proof fn law_only_quads_are_read(s: Seq<u8>) -> (r: (Seq<u8>, Seq<u8>, Seq<u8>, Seq<u8>))
    requires
        capi::quad_of(s) is Some,
    ensures
        s == dotted(r.0, r.1, r.2, r.3),
        digits(r.0) && digits(r.1) && digits(r.2) && digits(r.3),
        text::decimal(r.0) <= 255 && text::decimal(r.1) <= 255 && text::decimal(r.2) <= 255
            && text::decimal(r.3) <= 255,
{
    let f = text::fields(s, 46);
    lemma_octet(f[0]);
    lemma_octet(f[1]);
    lemma_octet(f[2]);
    lemma_octet(f[3]);
    let s1 = lemma_field_apart(s);
    let s2 = lemma_field_apart(s1);
    let s3 = lemma_field_apart(s2);
    text::lemma_fields_of_rest(s3, 46);
    if text::cut(s3, 46) is Some {
        text::lemma_fields_of_rest((text::cut(s3, 46)->0).1, 46);
    }
    assert(f[1] == text::fields(s1, 46)[0]);
    assert(f[2] == text::fields(s1, 46)[1]);
    assert(f[2] == text::fields(s2, 46)[0]);
    assert(f[3] == text::fields(s1, 46)[2]);
    assert(f[3] == text::fields(s2, 46)[1]);
    assert(f[3] == text::fields(s3, 46)[0]);
    assert(s3 == f[3]);
    (f[0], f[1], f[2], f[3])
}

proof fn lemma_field_apart(s: Seq<u8>) -> (rest: Seq<u8>)
    requires
        text::fields(s, 46).len() > 1,
    ensures
        ({
            let f = text::fields(s, 46);
            let g = text::fields(rest, 46);
            &&& s == f[0].push(46) + rest
            &&& g.len() == f.len() - 1
            &&& forall|i: int| 0 <= i < g.len() ==> #[trigger] g[i] == f[i + 1]
        }),
{
    text::lemma_fields_of_rest(s, 46);
    text::lemma_run_len(s, 46);
    let i = text::run_len(s, 46) as int;
    let rest = s.skip(i + 1);
    assert(s == s.take(i).push(46) + rest);
    let f = text::fields(s, 46);
    let g = text::fields(rest, 46);
    assert forall|k: int| 0 <= k < g.len() implies #[trigger] g[k] == f[k + 1] by {
        assert(f[k + 1] == g[(k + 1) - 1]);
    }
    rest
}

/// The codes, as C has them: counted down from one below zero, in the order in which
/// things go wrong, and behind them the two that no error has.
pub proof fn law_codes(e: Error)
    ensures
        capi::OK == 0,
        capi::code_of(e) == (match e {
            Error::NoDevice => -1int,
            Error::NoMemory => -2,
            Error::RssUnavailable => -3,
            Error::DhcpTimeout => -4,
            Error::ArpTimeout => -5,
            Error::NoPorts => -6,
            Error::ConnectRejected => -7,
            Error::SynTimeout => -8,
            Error::Tls => -9,
            Error::BadResponse => -10,
            Error::BufferTooSmall => -11,
        }),
        capi::E_NOT_UP == -12,
        capi::E_BAD_ARGUMENT == -13,
{
}

/// Every message says something and ends in a NUL.
pub proof fn law_messages_end(rc: i32)
    ensures
        capi::message_of(rc).len() > 1,
        capi::message_of(rc).last() == '\0',
{
    reveal_strlit("ok\0");
    reveal_strlit("no usable NIC\0");
    reveal_strlit("out of memory\0");
    reveal_strlit("RSS key or indirection table unavailable\0");
    reveal_strlit("DHCP timed out\0");
    reveal_strlit("gateway ARP timed out\0");
    reveal_strlit("no ephemeral port steers to this queue\0");
    reveal_strlit("connect rejected\0");
    reveal_strlit("SYN timeout: no SYN-ACK\0");
    reveal_strlit("TLS failure\0");
    reveal_strlit("malformed or unsupported HTTP response\0");
    reveal_strlit("response body exceeded the buffer\0");
    reveal_strlit("mininet is not up\0");
    reveal_strlit("bad argument\0");
    reveal_strlit("unknown error\0");
}

/// A C string in so many bytes: the text as far as there is room for it and for a
/// NUL, and NULs behind it.
pub proof fn law_c_string_is_cut(s: Seq<u8>, n: int, i: int)
    requires
        n > 0,
        0 <= i < n,
    ensures
        capi::c_string(s, n).len() == n,
        i < s.len() && i < n - 1 ==> capi::c_string(s, n)[i] == s[i],
        i >= s.len() || i == n - 1 ==> capi::c_string(s, n)[i] == 0,
{
}

/// A figure that is missing is zero; one that is there is itself.
pub proof fn law_missing_is_zero(n: u64)
    ensures
        capi::or_zero(Some(n)) == n,
        capi::or_zero(None) == 0,
{
}

/// A get goes ahead exactly on a stack that is up, with a request, and with a buffer
/// of at most a gibibyte, which may be missing where it has no room at all.
pub proof fn law_get_goes_ahead(
    is_up: bool,
    head_null: bool,
    buf_null: bool,
    cap: u64,
    rc: i32,
)
    requires
        call_ensures(capi::check_get, (is_up, head_null, buf_null, cap), rc),
    ensures
        rc == 0 <==> is_up && !head_null && cap <= 1024 * 1024 * 1024 && (cap > 0 ==> !buf_null),
        rc != 0 ==> rc == (if is_up {
            -13int
        } else {
            -12
        }),
{
}

/// Asking for the stack a second time is no error, and changes nothing.
pub proof fn law_up_again(is_up: bool, r: Option<i32>)
    requires
        call_ensures(capi::check_up, (false, is_up), r),
    ensures
        is_up ==> r == Some(0i32),
        !is_up ==> r is None,
{
}

/// What is brought up for a caller: the host and the address that it named, on the
/// port of its scheme, with as many workers and connections as it asked for, but at
/// least one of each. Without a host or an address nothing is.
pub proof fn law_what_is_brought_up(
    args: UpArgs<'_>,
    r: Result<UpPlan, i32>,
    a: u8,
    b: u8,
    c: u8,
    d: u8,
)
    requires
        call_ensures(capi::plan_up, (&args,), r),
        args.workers < 65536,
    ensures
        args.host is None || args.address is None || args.host->0@.len() == 0 ==> r is Err
            && r->Err_0 == -13,
        args.host is Some && args.host->0@.len() > 0 && args.address is Some
            && args.address->0.spec_bytes() == dotted(
            print::decimal_text(a as nat),
            print::decimal_text(b as nat),
            print::decimal_text(c as nat),
            print::decimal_text(d as nat),
        ) ==> {
            &&& r is Ok
            &&& r->Ok_0.service.peer.ip@ == seq![a, b, c, d]
            &&& r->Ok_0.service.peer.host@ == args.host->0@
            &&& r->Ok_0.service.peer.port == (if args.tls == 0 {
                80int
            } else {
                443
            })
            &&& r->Ok_0.service.peer.tls <==> args.tls != 0
            &&& r->Ok_0.stack.queues >= 1 && r->Ok_0.service.conns_per_worker >= 1
            &&& args.workers > 0 ==> r->Ok_0.stack.queues == args.workers
            &&& args.workers == 0 ==> r->Ok_0.stack.queues == 1
            &&& args.conns_per_worker > 0 ==> r->Ok_0.service.conns_per_worker
                == args.conns_per_worker
            &&& args.conns_per_worker == 0 ==> r->Ok_0.service.conns_per_worker == 1
        },
{
    law_quad_reads_back(a, b, c, d);
}

} // verus!
