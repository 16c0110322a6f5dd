//! What a TLS session puts on the wire over any number of rounds: its own records
//! as they come, and the request once.

use vstd::prelude::*;

use crate::error::Error;
use crate::exchange::{Answer, ExchangeView};
use crate::http_laws;
use crate::tls;

verus! {

/// The exchange after these rounds.
pub open spec fn after_rounds(x: ExchangeView, answers: Seq<Answer>) -> ExchangeView
    decreases answers.len(),
{
    if answers.len() == 0 {
        x
    } else {
        after_rounds(x, answers.drop_last()).round(answers.last()).exchange
    }
}

/// None of these rounds fails.
pub open spec fn all_well(x: ExchangeView, answers: Seq<Answer>) -> bool
    decreases answers.len(),
{
    answers.len() == 0 || {
        &&& all_well(x, answers.drop_last())
        &&& after_rounds(x, answers.drop_last()).round(answers.last()).failed is None
    }
}

/// The channel was found to take application data at some time.
pub open spec fn opened_up(answers: Seq<Answer>) -> bool {
    exists|i: int| 0 <= i < answers.len() && #[trigger] answers[i] is Write
}

/// Everything that the session put out, in order: handshake records, and the request
/// encrypted, where it was still due when the channel first took it.
pub open spec fn put_out(due: bool, answers: Seq<Answer>) -> Seq<u8>
    decreases answers.len(),
{
    if answers.len() == 0 {
        Seq::empty()
    } else {
        let before = answers.drop_last();
        put_out(due, before) + match answers.last() {
            Answer::Encode(Some(record)) => record,
            Answer::Write(Some(request)) if due && !opened_up(before) => request,
            _ => Seq::empty(),
        }
    }
}

/// Every record that came in, in order.
pub open spec fn came_in(answers: Seq<Answer>) -> Seq<Seq<u8>>
    decreases answers.len(),
{
    if answers.len() == 0 {
        Seq::empty()
    } else {
        came_in(answers.drop_last()) + match answers.last() {
            Answer::Read(records) => records,
            _ => Seq::empty(),
        }
    }
}

proof fn lemma_opened_up(answers: Seq<Answer>)
    requires
        answers.len() > 0,
    ensures
        opened_up(answers) <==> opened_up(answers.drop_last()) || answers.last() is Write,
{
    let before = answers.drop_last();
    if opened_up(before) {
        let i = choose|i: int| 0 <= i < before.len() && #[trigger] before[i] is Write;
        assert(answers[i] is Write);
    }
    if answers.last() is Write {
        assert(answers[answers.len() - 1] is Write);
    }
    if opened_up(answers) && !(answers.last() is Write) {
        let i = choose|i: int| 0 <= i < answers.len() && #[trigger] answers[i] is Write;
        assert(before[i] is Write);
    }
}

/// Over any number of rounds, what goes out is what the session put out, in that
/// order and behind what was on its way before; the request goes out at most once,
/// and as soon as the channel takes it.
pub proof fn law_request_goes_out_once(x: ExchangeView, answers: Seq<Answer>)
    requires
        all_well(x, answers),
    ensures
        ({
            let y = after_rounds(x, answers);
            &&& y.outgoing == x.outgoing + put_out(!x.queued, answers)
            &&& y.queued == (x.queued || opened_up(answers))
            &&& y.ready == (x.ready || opened_up(answers))
            &&& y.request == x.request
        }),
    decreases answers.len(),
{
    if answers.len() > 0 {
        law_request_goes_out_once(x, answers.drop_last());
        lemma_opened_up(answers);
    }
    assert(after_rounds(x, answers).outgoing == x.outgoing + put_out(!x.queued, answers));
}

/// Over any number of rounds, the response is what came in, record by record.
pub proof fn law_records_are_taken_in_order(x: ExchangeView, answers: Seq<Answer>)
    requires
        all_well(x, answers),
    ensures
        ({
            let y = after_rounds(x, answers);
            let f = http_laws::fed_all(x.parser, came_in(answers));
            &&& f.error is None
            &&& y.parser == f.parser
            &&& y.sink == x.sink.with(f.body)
        }),
    decreases answers.len(),
{
    let y = after_rounds(x, answers);
    let all = came_in(answers);
    if answers.len() == 0 {
        assert(x.sink.with(Seq::empty()) == x.sink);
    } else {
        let before = answers.drop_last();
        law_records_are_taken_in_order(x, before);
        let some = came_in(before);
        let f = http_laws::fed_all(x.parser, some);
        match answers.last() {
            Answer::Read(records) => {
                lemma_fed_all_joins(x, some, records);
                let g = http_laws::fed_all(f.parser, records);
                assert(x.sink.with(f.body).with(g.body) == x.sink.with(f.body + g.body));
            },
            _ => {
                assert(all == some);
            },
        }
    }
}

proof fn lemma_fed_all_joins(x: ExchangeView, a: Seq<Seq<u8>>, b: Seq<Seq<u8>>)
    requires
        http_laws::fed_all(x.parser, a).error is None,
        http_laws::fed_all(http_laws::fed_all(x.parser, a).parser, b).error is None,
    ensures
        ({
            let f = http_laws::fed_all(x.parser, a);
            let g = http_laws::fed_all(f.parser, b);
            let h = http_laws::fed_all(x.parser, a + b);
            &&& h.error is None
            &&& h.parser == g.parser
            &&& h.body == f.body + g.body
        }),
    decreases b.len(),
{
    let f = http_laws::fed_all(x.parser, a);
    if b.len() == 0 {
        assert(a + b == a);
        assert(f.body + Seq::<u8>::empty() == f.body);
    } else {
        assert((a + b).drop_last() == a + b.drop_last());
        assert((a + b).last() == b.last());
        lemma_fed_all_joins(x, a, b.drop_last());
        let g = http_laws::fed_all(f.parser, b);
        let h = http_laws::fed_all(x.parser, a + b);
        assert(h.body == f.body + g.body);
    }
}

/// What ends a connection, and how: a session that fails, a handshake record that
/// cannot be put among at most 32768 outgoing bytes, a request that cannot be
/// encrypted while it is due, or a response that is wrong. Nothing else does.
pub proof fn law_what_ends_it(x: ExchangeView, answer: Answer)
    ensures
        ({
            let failed = x.round(answer).failed;
            let bad = answer matches Answer::Read(records) && http_laws::fed_all(
                x.parser,
                records,
            ).error is Some;
            let stuck = match answer {
                Answer::Broken => true,
                Answer::Encode(Some(record)) => x.outgoing.len() + record.len() > 32768,
                Answer::Encode(None) => true,
                Answer::Write(None) => !x.queued,
                _ => false,
            };
            &&& failed is Some <==> bad || stuck
            &&& bad ==> failed == Some(Error::BadResponse)
            &&& stuck ==> failed == Some(Error::Tls)
        }),
{
}

/// Another round is due exactly after one that went well and did something.
pub proof fn law_rounds_go_on_while_there_is_something(x: ExchangeView, answer: Answer)
    ensures
        x.round(answer).more <==> x.round(answer).failed is None && !(answer is Wait) && !(
        answer is Write && x.queued),
        x.round(answer).failed is None && !x.round(answer).more ==> x.round(answer).exchange == (
        ExchangeView { ready: x.ready || answer is Write, ..x }),
{
}

/// The request is what is encrypted, in room for it and 128 bytes more, which is as
/// much as can be sent for it.
pub proof fn law_request_is_what_is_encrypted(x: ExchangeView, sealed: Seq<u8>)
    requires
        !x.queued,
        x.outgoing.len() + x.request.len() + 128 <= usize::MAX,
        x.encrypts(Answer::Write(Some(sealed))),
    ensures
        tls::sealed(x.request, x.request.len() + 128, Some(sealed)),
        sealed.len() <= x.request.len() + 128,
{
}

/// A record buffer holds the longest record that there is: a header of five bytes,
/// and behind it 2048 bytes more than the longest plain text.
pub proof fn law_record_buffer_holds_any_record()
    ensures
        tls::TLS_BUF_CAP >= 5 + 16384 + 2048,
{
}

/// A handshake record that cannot be encoded leaves the room that was made for it:
/// up to 32768 bytes, what was on its way at the front, and zeros behind it.
pub proof fn law_failed_record_leaves_its_room(x: ExchangeView, answer: Answer)
    requires
        answer is Encode,
        x.round(answer).failed is Some,
    ensures
        ({
            let y = x.round(answer).exchange;
            &&& x.outgoing.is_prefix_of(y.outgoing)
            &&& y.outgoing.len() == (if x.outgoing.len() < 32768 {
                32768
            } else {
                x.outgoing.len()
            })
            &&& forall|i: int|
                x.outgoing.len() <= i < y.outgoing.len() ==> #[trigger] y.outgoing[i] == 0
            &&& y.queued == x.queued && y.ready == x.ready && y.parser == x.parser && y.sink
                == x.sink
        }),
{
    let y = x.round(answer).exchange;
    assert(y.outgoing.take(x.outgoing.len() as int) == x.outgoing);
}

} // verus!
