//! Why the decoder reads back what the encoder wrote.
//!
//! The encoder's bit stream, read as a binary fraction, lies inside every
//! interval the encoder went through; the decoder's code window is that
//! fraction cut to the register width, so at every step it finds the window in
//! the sub-interval of the symbol that the encoder coded there.

use vstd::prelude::*;
use vstd::arithmetic::power2::{lemma2_to64, lemma_pow2_unfold, pow2};
use super::base::{
    coded, interval_ok, lemma_narrow_bounds, lemma_slot_ok, narrow, shift_phase, slot_of,
    straddles, top_bits_agree, underflow_phase, CoderHooks, Coding, Slot, FULL_RANGE, HALF_RANGE,
    MAXIMUM_TOTAL, QUARTER_RANGE,
};
use super::decoder::{
    after_bit, decoded_symbol, decode_value, lemma_symbol_below, lemma_value_in_slot, next_bit,
    primed, top_of, ArithmeticDecoder, DecoderHook,
};
use super::encoder::{encode_all, ArithmeticEncoder, EncoderHook, Event};
use super::sum;
use crate::bitio::bit_value;

verus! {

/// Bit `i` of a stream as a number; outside the stream every bit is clear.
pub open spec fn bit_at(s: Seq<bool>, i: int) -> int {
    if 0 <= i < s.len() && s[i] {
        1
    } else {
        0
    }
}

/// The number whose binary digits are the `n` bits of `s` from `start` on.
pub open spec fn window(s: Seq<bool>, start: int, n: nat) -> int
    decreases n,
{
    if n == 0 {
        0
    } else {
        2 * window(s, start, (n - 1) as nat) + bit_at(s, start + n - 1)
    }
}

/// The code window of a decoder that has followed the encoder up to the point
/// where `e` bits are written and `p` are deferred: the bit at `e`, then the
/// 31 bits that follow the `p` bits after it.
pub open spec fn code_of(s: Seq<bool>, e: int, p: int) -> int {
    HALF_RANGE * bit_at(s, e) + window(s, e + p + 1, 31)
}

/// A window of `n` bits is a number below `2^n`.
pub proof fn lemma_window_bound(s: Seq<bool>, start: int, n: nat)
    ensures
        0 <= window(s, start, n) < pow2(n),
    decreases n,
{
    if n == 0 {
        lemma2_to64();
    } else {
        lemma_window_bound(s, start, (n - 1) as nat);
        lemma_pow2_unfold(n);
    }
}

/// A window's first bit weighs `2^n` when `n` bits follow it.
pub proof fn lemma_window_front(s: Seq<bool>, start: int, n: nat)
    ensures
        window(s, start, n + 1) == pow2(n) * bit_at(s, start) + window(s, start + 1, n),
    decreases n,
{
    if n == 0 {
        lemma2_to64();
        assert(window(s, start, 1) == 2 * window(s, start, 0) + bit_at(s, start));
    } else {
        lemma_window_front(s, start, (n - 1) as nat);
        lemma_pow2_unfold(n);
        let a = pow2((n - 1) as nat);
        let b = bit_at(s, start);
        assert(2 * (a * b) == (2 * a) * b) by (nonlinear_arith);
    }
}

/// A window past the end of the stream is zero.
pub proof fn lemma_window_past_end(s: Seq<bool>, start: int, n: nat)
    requires
        start >= s.len(),
    ensures
        window(s, start, n) == 0,
    decreases n,
{
    if n > 0 {
        lemma_window_past_end(s, start, (n - 1) as nat);
    }
}

/// Windows of streams that agree bit by bit are equal.
pub proof fn lemma_window_agree(s: Seq<bool>, t: Seq<bool>, start: int, shift: int, n: nat)
    requires
        forall|i: int| i >= start ==> bit_at(s, i) == #[trigger] bit_at(t, i + shift),
    ensures
        window(s, start, n) == window(t, start + shift, n),
    decreases n,
{
    if n > 0 {
        lemma_window_agree(s, t, start, shift, (n - 1) as nat);
        assert(bit_at(s, start + n - 1) == bit_at(t, start + n - 1 + shift));
    }
}

/// Whether the stream `s` is one the encoder in state `c` can still end up
/// with: it starts with what is written, its code window lies in the interval,
/// and the deferred bits are the complement of the bit before them.
pub open spec fn good(c: Coding<EncoderHook>, s: Seq<bool>) -> bool {
    let e = c.hook.bits.len() as int;
    &&& 0 <= c.low <= c.high < FULL_RANGE
    &&& e <= s.len()
    &&& forall|i: int| 0 <= i < e ==> s[i] == c.hook.bits[i]
    &&& c.low <= code_of(s, e, c.hook.pending as int) <= c.high
    &&& forall|j: int| 1 <= j <= c.hook.pending ==> #[trigger] bit_at(s, e + j) == 1 - bit_at(s, e)
}

/// The encoder state one shift further.
pub open spec fn shift_once(c: Coding<EncoderHook>) -> Coding<EncoderHook> {
    Coding {
        low: 2 * (c.low - top_of(c.low)),
        high: 2 * (c.high - top_of(c.low)) + 1,
        hook: ArithmeticEncoder::shifted(c.low, c.hook),
    }
}

/// The encoder state one underflow further.
pub open spec fn underflow_once(c: Coding<EncoderHook>) -> Coding<EncoderHook> {
    Coding {
        low: 2 * c.low - HALF_RANGE,
        high: 2 * c.high - HALF_RANGE + 1,
        hook: ArithmeticEncoder::underflowed(c.hook),
    }
}

/// A stream that is good after a shift was good before it.
proof fn lemma_shift_once_back(c: Coding<EncoderHook>, s: Seq<bool>)
    requires
        top_bits_agree(c.low, c.high),
        good(shift_once(c), s),
    ensures
        good(c, s),
{
    let next = shift_once(c);
    let e = c.hook.bits.len() as int;
    let p = c.hook.pending as int;
    let bit = c.low >= HALF_RANGE;
    let e2 = e + 1 + p;
    assert(next.hook.bits.len() == e2);
    assert(next.hook.bits[e] == bit);
    assert(s[e] == next.hook.bits[e]);
    assert forall|i: int| 0 <= i < e implies s[i] == c.hook.bits[i] by {
        assert(s[i] == next.hook.bits[i]);
    }
    assert forall|j: int| 1 <= j <= p implies #[trigger] bit_at(s, e + j) == 1 - bit_at(s, e) by {
        assert(next.hook.bits[e + j] == !bit);
        assert(s[e + j] == next.hook.bits[e + j]);
    }
    lemma2_to64();
    lemma_window_front(s, e2, 31);
    lemma_window_bound(s, e2, 31);
    assert(window(s, e2, 32) == 2 * window(s, e2, 31) + bit_at(s, e2 + 31));
    assert(code_of(s, e2, 0) == window(s, e2, 32));
    assert(code_of(s, e, p) == top_of(c.low) + window(s, e2, 31));
}

/// A stream that is good after an underflow was good before it.
proof fn lemma_underflow_once_back(c: Coding<EncoderHook>, s: Seq<bool>)
    requires
        straddles(c.low, c.high),
        good(underflow_once(c), s),
    ensures
        good(c, s),
{
    let next = underflow_once(c);
    let e = c.hook.bits.len() as int;
    let p = c.hook.pending as int;
    assert(bit_at(s, e + (p + 1)) == 1 - bit_at(s, e));
    assert forall|j: int| 1 <= j <= p implies #[trigger] bit_at(s, e + j) == 1 - bit_at(s, e) by {}
    lemma2_to64();
    lemma_window_front(s, e + p + 1, 30);
    lemma_window_bound(s, e + p + 2, 30);
    assert(window(s, e + p + 2, 31) == 2 * window(s, e + p + 2, 30) + bit_at(s, e + p + 32));
    assert(code_of(s, e, p + 1) == HALF_RANGE * bit_at(s, e) + window(s, e + p + 2, 31));
    assert(code_of(s, e, p) == HALF_RANGE * bit_at(s, e) + QUARTER_RANGE * bit_at(s, e + p + 1)
        + window(s, e + p + 2, 30));
}

/// A stream that is good after the shift phase was good before it.
proof fn lemma_shift_back(c: Coding<EncoderHook>, s: Seq<bool>)
    requires
        0 <= c.low <= c.high < FULL_RANGE,
        good(shift_phase::<ArithmeticEncoder>(c), s),
    ensures
        good(c, s),
    decreases FULL_RANGE - (c.high - c.low + 1),
{
    if top_bits_agree(c.low, c.high) {
        let next = shift_once(c);
        assert(shift_phase::<ArithmeticEncoder>(c) == shift_phase::<ArithmeticEncoder>(next));
        lemma_shift_back(next, s);
        lemma_shift_once_back(c, s);
    }
}

/// A stream that is good after the underflow phase was good before it.
proof fn lemma_underflow_back(c: Coding<EncoderHook>, s: Seq<bool>)
    requires
        0 <= c.low <= c.high < FULL_RANGE,
        good(underflow_phase::<ArithmeticEncoder>(c), s),
    ensures
        good(c, s),
    decreases FULL_RANGE - (c.high - c.low + 1),
{
    if straddles(c.low, c.high) {
        let next = underflow_once(c);
        assert(underflow_phase::<ArithmeticEncoder>(c) == underflow_phase::<ArithmeticEncoder>(
            next,
        ));
        lemma_underflow_back(next, s);
        lemma_underflow_once_back(c, s);
    }
}

/// The shift phase of the encoder ends with the ends on both sides of the midpoint.
proof fn lemma_shift_ends(c: Coding<EncoderHook>)
    requires
        0 <= c.low <= c.high < FULL_RANGE,
    ensures
        ({
            let d = shift_phase::<ArithmeticEncoder>(c);
            0 <= d.low < HALF_RANGE <= d.high < FULL_RANGE
        }),
    decreases FULL_RANGE - (c.high - c.low + 1),
{
    if top_bits_agree(c.low, c.high) {
        lemma_shift_ends(shift_once(c));
    }
}

/// The underflow phase of the encoder ends with the interval in its
/// between-symbols shape.
proof fn lemma_underflow_ends(c: Coding<EncoderHook>)
    requires
        0 <= c.low < HALF_RANGE <= c.high < FULL_RANGE,
    ensures
        ({
            let d = underflow_phase::<ArithmeticEncoder>(c);
            interval_ok(d.low, d.high)
        }),
    decreases FULL_RANGE - (c.high - c.low + 1),
{
    if straddles(c.low, c.high) {
        lemma_underflow_ends(underflow_once(c));
    }
}

/// A coding step the coder accepts: the symbol has a non-zero frequency in a
/// table whose total is within the limit.
pub open spec fn event_ok(ev: Event) -> bool {
    &&& ev.symbol < ev.table.len()
    &&& ev.table[ev.symbol as int] > 0
    &&& sum(ev.table) <= MAXIMUM_TOTAL
}

/// Every step of `events` is one the coder accepts.
pub open spec fn events_ok(events: Seq<Event>) -> bool {
    forall|k: int| 0 <= k < events.len() ==> event_ok(#[trigger] events[k])
}

/// The slot of a coding step.
pub open spec fn event_slot(ev: Event) -> Slot {
    slot_of(ev.table, ev.symbol as int)
}

/// Coding an accepted step leaves the encoder's interval in its between-symbols shape.
pub proof fn lemma_coded_interval(c: Coding<EncoderHook>, ev: Event)
    requires
        interval_ok(c.low, c.high),
        event_ok(ev),
    ensures
        interval_ok(
            coded::<ArithmeticEncoder>(c, event_slot(ev)).low,
            coded::<ArithmeticEncoder>(c, event_slot(ev)).high,
        ),
{
    lemma_slot_ok(ev.table, ev.symbol as int);
    lemma_narrow_bounds(c.low, c.high, event_slot(ev));
    let n = narrow::<ArithmeticEncoder>(c, event_slot(ev));
    lemma_shift_ends(n);
    lemma_underflow_ends(shift_phase::<ArithmeticEncoder>(n));
}

/// Coding accepted steps leaves the encoder's interval in its between-symbols shape.
pub proof fn lemma_encode_all_interval(c: Coding<EncoderHook>, events: Seq<Event>)
    requires
        interval_ok(c.low, c.high),
        events_ok(events),
    ensures
        interval_ok(encode_all(c, events).low, encode_all(c, events).high),
    decreases events.len(),
{
    if events.len() > 0 {
        lemma_coded_interval(c, events[0]);
        lemma_encode_all_interval(
            coded::<ArithmeticEncoder>(c, event_slot(events[0])),
            events.skip(1),
        );
    }
}

/// Coding `a` and then `b` is coding `a + b`.
pub proof fn lemma_encode_all_concat(c: Coding<EncoderHook>, a: Seq<Event>, b: Seq<Event>)
    ensures
        encode_all(c, a + b) == encode_all(encode_all(c, a), b),
    decreases a.len(),
{
    if a.len() == 0 {
        assert(a + b =~= b);
    } else {
        assert((a + b).skip(1) =~= a.skip(1) + b);
        assert((a + b)[0] == a[0]);
        lemma_encode_all_concat(
            coded::<ArithmeticEncoder>(c, event_slot(a[0])),
            a.skip(1),
            b,
        );
    }
}

/// The whole stream that an encoder in state `c` ends up with after coding
/// `events` and the terminating bit.
pub open spec fn stream(c: Coding<EncoderHook>, events: Seq<Event>) -> Seq<bool> {
    encode_all(c, events).hook.bits.push(true)
}

/// The stream the encoder ends up with is good for the state it is in, and
/// also for that state narrowed to the next step's slot.
pub proof fn lemma_stream_good(c: Coding<EncoderHook>, events: Seq<Event>)
    requires
        interval_ok(c.low, c.high),
        events_ok(events),
    ensures
        good(c, stream(c, events)),
        events.len() > 0 ==> good(
            narrow::<ArithmeticEncoder>(c, event_slot(events[0])),
            stream(c, events),
        ),
    decreases events.len(),
{
    let s = stream(c, events);
    let e = c.hook.bits.len() as int;
    let p = c.hook.pending as int;
    if events.len() == 0 {
        assert(s == c.hook.bits.push(true));
        lemma_window_past_end(s, e + p + 1, 31);
        assert(bit_at(s, e) == 1);
        assert forall|j: int| 1 <= j <= p implies #[trigger] bit_at(s, e + j) == 1 - bit_at(
            s,
            e,
        ) by {}
    } else {
        let ev = events[0];
        let slot = event_slot(ev);
        let n = narrow::<ArithmeticEncoder>(c, slot);
        let sh = shift_phase::<ArithmeticEncoder>(n);
        let c1 = coded::<ArithmeticEncoder>(c, slot);
        lemma_slot_ok(ev.table, ev.symbol as int);
        lemma_narrow_bounds(c.low, c.high, slot);
        lemma_coded_interval(c, ev);
        lemma_stream_good(c1, events.skip(1));
        assert(stream(c1, events.skip(1)) == s);
        lemma_shift_ends(n);
        lemma_underflow_back(sh, s);
        lemma_shift_back(n, s);
    }
}

/// The decoder `d` has followed the encoder `c` through the stream `s`: same
/// interval, the code window that belongs to the encoder's position, and the
/// unread input is the stream from where the window ends.
pub open spec fn sync(c: Coding<EncoderHook>, d: Coding<DecoderHook>, s: Seq<bool>) -> bool {
    let e = c.hook.bits.len() as int;
    let p = c.hook.pending as int;
    &&& d.low == c.low
    &&& d.high == c.high
    &&& d.hook.code == code_of(s, e, p)
    &&& forall|i: int| i >= 0 ==> #[trigger] bit_at(d.hook.rest, i) == bit_at(s, e + p + 32 + i)
}

/// The decoder state one shift further.
pub open spec fn dec_shift_once(d: Coding<DecoderHook>) -> Coding<DecoderHook> {
    Coding {
        low: 2 * (d.low - top_of(d.low)),
        high: 2 * (d.high - top_of(d.low)) + 1,
        hook: ArithmeticDecoder::shifted(d.low, d.hook),
    }
}

/// The decoder state one underflow further.
pub open spec fn dec_underflow_once(d: Coding<DecoderHook>) -> Coding<DecoderHook> {
    Coding {
        low: 2 * d.low - HALF_RANGE,
        high: 2 * d.high - HALF_RANGE + 1,
        hook: ArithmeticDecoder::underflowed(d.hook),
    }
}

/// Reading a bit moves every later bit one place forward.
proof fn lemma_after_bit(rest: Seq<bool>)
    ensures
        bit_value(next_bit(rest)) == bit_at(rest, 0),
        forall|i: int| i >= 0 ==> #[trigger] bit_at(after_bit(rest), i) == bit_at(rest, i + 1),
{
}

/// A decoder in step with the encoder stays in step over one shift.
proof fn lemma_shift_once_sync(c: Coding<EncoderHook>, d: Coding<DecoderHook>, s: Seq<bool>)
    requires
        sync(c, d, s),
    ensures
        sync(shift_once(c), dec_shift_once(d), s),
{
    let e = c.hook.bits.len() as int;
    let p = c.hook.pending as int;
    let e2 = e + 1 + p;
    let c2 = shift_once(c);
    let d2 = dec_shift_once(d);
    assert(c2.hook.bits.len() == e2);
    lemma2_to64();
    lemma_after_bit(d.hook.rest);
    lemma_window_bound(s, e2, 31);
    lemma_window_front(s, e2, 31);
    assert(window(s, e2, 32) == 2 * window(s, e2, 31) + bit_at(s, e2 + 31));
    assert(bit_at(d.hook.rest, 0) == bit_at(s, e + p + 32 + 0));
    assert(top_of(d.hook.code) == HALF_RANGE * bit_at(s, e));
    assert(d2.hook.code == code_of(s, e2, 0));
    assert forall|i: int| i >= 0 implies #[trigger] bit_at(d2.hook.rest, i) == bit_at(
        s,
        e2 + 0 + 32 + i,
    ) by {
        assert(bit_at(d.hook.rest, i + 1) == bit_at(s, e + p + 32 + (i + 1)));
    }
}

/// A decoder in step with the encoder stays in step over one underflow.
proof fn lemma_underflow_once_sync(c: Coding<EncoderHook>, d: Coding<DecoderHook>, s: Seq<bool>)
    requires
        sync(c, d, s),
    ensures
        sync(underflow_once(c), dec_underflow_once(d), s),
{
    let e = c.hook.bits.len() as int;
    let p = c.hook.pending as int;
    let d2 = dec_underflow_once(d);
    lemma2_to64();
    lemma_after_bit(d.hook.rest);
    lemma_window_front(s, e + p + 1, 30);
    lemma_window_bound(s, e + p + 2, 30);
    let u = window(s, e + p + 2, 30);
    let mid = bit_at(s, e + p + 1);
    let top = bit_at(s, e);
    assert(window(s, e + p + 2, 31) == 2 * u + bit_at(s, e + p + 32));
    assert(d.hook.code == HALF_RANGE * top + QUARTER_RANGE * mid + u);
    assert(top_of(d.hook.code) == HALF_RANGE * top);
    assert(d.hook.code % (QUARTER_RANGE as int) == u);
    assert(bit_at(d.hook.rest, 0) == bit_at(s, e + p + 32 + 0));
    assert(d2.hook.code == code_of(s, e, p + 1));
    assert forall|i: int| i >= 0 implies #[trigger] bit_at(d2.hook.rest, i) == bit_at(
        s,
        e + (p + 1) + 32 + i,
    ) by {
        assert(bit_at(d.hook.rest, i + 1) == bit_at(s, e + p + 32 + (i + 1)));
    }
}

/// A decoder in step with the encoder stays in step over the shift phase.
proof fn lemma_shift_sync(c: Coding<EncoderHook>, d: Coding<DecoderHook>, s: Seq<bool>)
    requires
        sync(c, d, s),
    ensures
        sync(shift_phase::<ArithmeticEncoder>(c), shift_phase::<ArithmeticDecoder>(d), s),
    decreases FULL_RANGE - (c.high - c.low + 1),
{
    if top_bits_agree(c.low, c.high) {
        lemma_shift_once_sync(c, d, s);
        assert(shift_phase::<ArithmeticEncoder>(c) == shift_phase::<ArithmeticEncoder>(
            shift_once(c),
        ));
        assert(shift_phase::<ArithmeticDecoder>(d) == shift_phase::<ArithmeticDecoder>(
            dec_shift_once(d),
        ));
        lemma_shift_sync(shift_once(c), dec_shift_once(d), s);
    }
}

/// A decoder in step with the encoder stays in step over the underflow phase.
proof fn lemma_underflow_sync(c: Coding<EncoderHook>, d: Coding<DecoderHook>, s: Seq<bool>)
    requires
        sync(c, d, s),
    ensures
        sync(underflow_phase::<ArithmeticEncoder>(c), underflow_phase::<ArithmeticDecoder>(d), s),
    decreases FULL_RANGE - (c.high - c.low + 1),
{
    if straddles(c.low, c.high) {
        lemma_underflow_once_sync(c, d, s);
        assert(underflow_phase::<ArithmeticEncoder>(c) == underflow_phase::<ArithmeticEncoder>(
            underflow_once(c),
        ));
        assert(underflow_phase::<ArithmeticDecoder>(d) == underflow_phase::<ArithmeticDecoder>(
            dec_underflow_once(d),
        ));
        lemma_underflow_sync(underflow_once(c), dec_underflow_once(d), s);
    }
}

/// One step of the round trip: a decoder in step with the encoder reads, against
/// the table of the encoder's next step, the symbol that the encoder codes
/// there, and is in step again afterwards.
pub proof fn lemma_event_roundtrip(
    c: Coding<EncoderHook>,
    d: Coding<DecoderHook>,
    events: Seq<Event>,
    s: Seq<bool>,
)
    requires
        interval_ok(c.low, c.high),
        events_ok(events),
        events.len() > 0,
        sync(c, d, s),
        s == stream(c, events),
    ensures
        decoded_symbol(events[0].table, d.low, d.high, d.hook.code) == events[0].symbol,
        sync(
            coded::<ArithmeticEncoder>(c, event_slot(events[0])),
            coded::<ArithmeticDecoder>(d, event_slot(events[0])),
            s,
        ),
        interval_ok(
            coded::<ArithmeticEncoder>(c, event_slot(events[0])).low,
            coded::<ArithmeticEncoder>(c, event_slot(events[0])).high,
        ),
        s == stream(coded::<ArithmeticEncoder>(c, event_slot(events[0])), events.skip(1)),
{
    let ev = events[0];
    let slot = event_slot(ev);
    let f = ev.table;
    lemma_stream_good(c, events);
    lemma_slot_ok(f, ev.symbol as int);
    lemma_coded_interval(c, ev);
    let n = narrow::<ArithmeticEncoder>(c, slot);
    let dn = narrow::<ArithmeticDecoder>(d, slot);
    assert(good(n, s));
    lemma_value_in_slot(d.low, d.high, d.hook.code, slot);
    let value = decode_value(d.low, d.high, d.hook.code, sum(f));
    lemma_symbol_below(f, value, f.len() as int, ev.symbol as int);
    assert(sync(n, dn, s));
    lemma_shift_sync(n, dn, s);
    lemma_underflow_sync(
        shift_phase::<ArithmeticEncoder>(n),
        shift_phase::<ArithmeticDecoder>(dn),
        s,
    );
}

/// After reading `n` bits into an empty window, the window holds the first `n`
/// bits of the input and the unread input starts behind them.
pub proof fn lemma_primed(input: Seq<bool>, n: nat)
    ensures
        primed(input, n).code == window(input, 0, n),
        forall|i: int|
            i >= 0 ==> #[trigger] bit_at(primed(input, n).rest, i) == bit_at(input, n + i),
    decreases n,
{
    if n == 0 {
    } else {
        lemma_primed(input, (n - 1) as nat);
        let h = primed(input, (n - 1) as nat);
        lemma_after_bit(h.rest);
        assert(bit_at(h.rest, 0) == bit_at(input, n - 1 + 0));
        assert forall|i: int| i >= 0 implies #[trigger] bit_at(primed(input, n).rest, i) == bit_at(
            input,
            n + i,
        ) by {
            assert(bit_at(h.rest, i + 1) == bit_at(input, n - 1 + (i + 1)));
        }
    }
}

/// A decoder that starts on input which agrees bit by bit with the encoder's
/// whole stream is in step with an encoder that has written nothing.
pub proof fn lemma_initial_sync(c: Coding<EncoderHook>, input: Seq<bool>, s: Seq<bool>)
    requires
        c.hook.bits.len() == 0,
        c.hook.pending == 0,
        forall|i: int| i >= 0 ==> bit_at(input, i) == #[trigger] bit_at(s, i),
    ensures
        sync(c, Coding { low: c.low, high: c.high, hook: primed(input, 32) }, s),
{
    lemma_primed(input, 32);
    lemma2_to64();
    lemma_window_front(s, 0, 31);
    assert forall|i: int| i >= 0 implies bit_at(input, i) == #[trigger] bit_at(s, i + 0) by {}
    lemma_window_agree(input, s, 0, 0, 32);
    let d = primed(input, 32);
    assert forall|i: int| i >= 0 implies #[trigger] bit_at(d.rest, i) == bit_at(
        s,
        0 + 0 + 32 + i,
    ) by {
        assert(bit_at(d.rest, i) == bit_at(input, 32 + i));
    }
}

/// The bits an encoder has written or deferred.
pub open spec fn potential(c: Coding<EncoderHook>) -> int {
    (c.hook.bits.len() + c.hook.pending) as int
}

/// The shift phase of an interval at least `2^j` wide writes or defers at most
/// `32 - j` bits.
proof fn lemma_shift_potential(c: Coding<EncoderHook>, j: nat)
    requires
        0 <= c.low <= c.high < FULL_RANGE,
        j <= 32,
        c.high - c.low + 1 >= pow2(j),
    ensures
        potential(shift_phase::<ArithmeticEncoder>(c)) <= potential(c) + 32 - j,
    decreases FULL_RANGE - (c.high - c.low + 1),
{
    lemma2_to64();
    if top_bits_agree(c.low, c.high) {
        let next = shift_once(c);
        assert(j < 32);
        lemma_pow2_unfold(j + 1);
        assert(shift_phase::<ArithmeticEncoder>(c) == shift_phase::<ArithmeticEncoder>(next));
        lemma_shift_potential(next, j + 1);
        assert(potential(next) == potential(c) + 1);
    }
}

/// The underflow phase of an interval at least `2^j` wide defers at most
/// `32 - j` bits.
proof fn lemma_underflow_potential(c: Coding<EncoderHook>, j: nat)
    requires
        0 <= c.low <= c.high < FULL_RANGE,
        j <= 32,
        c.high - c.low + 1 >= pow2(j),
    ensures
        potential(underflow_phase::<ArithmeticEncoder>(c)) <= potential(c) + 32 - j,
    decreases FULL_RANGE - (c.high - c.low + 1),
{
    lemma2_to64();
    if straddles(c.low, c.high) {
        let next = underflow_once(c);
        assert(j < 32);
        lemma_pow2_unfold(j + 1);
        assert(underflow_phase::<ArithmeticEncoder>(c) == underflow_phase::<ArithmeticEncoder>(
            next,
        ));
        lemma_underflow_potential(next, j + 1);
        assert(potential(next) == potential(c) + 1);
    }
}

/// Coding accepted steps writes or defers at most 64 bits for each step.
pub proof fn lemma_encode_all_bits(c: Coding<EncoderHook>, events: Seq<Event>)
    requires
        interval_ok(c.low, c.high),
        events_ok(events),
    ensures
        potential(encode_all(c, events)) <= potential(c) + 64 * events.len(),
    decreases events.len(),
{
    if events.len() > 0 {
        let ev = events[0];
        let slot = event_slot(ev);
        lemma2_to64();
        lemma_slot_ok(ev.table, ev.symbol as int);
        lemma_narrow_bounds(c.low, c.high, slot);
        lemma_coded_interval(c, ev);
        let n = narrow::<ArithmeticEncoder>(c, slot);
        lemma_shift_potential(n, 0);
        lemma_shift_ends(n);
        lemma_underflow_potential(shift_phase::<ArithmeticEncoder>(n), 0);
        lemma_encode_all_bits(coded::<ArithmeticEncoder>(c, slot), events.skip(1));
    }
}

/// Both halves go through the same shifts from the same interval.
proof fn lemma_same_shifts(c: Coding<EncoderHook>, d: Coding<DecoderHook>)
    requires
        c.low == d.low,
        c.high == d.high,
    ensures
        shift_phase::<ArithmeticEncoder>(c).low == shift_phase::<ArithmeticDecoder>(d).low,
        shift_phase::<ArithmeticEncoder>(c).high == shift_phase::<ArithmeticDecoder>(d).high,
    decreases FULL_RANGE - (c.high - c.low + 1),
{
    if top_bits_agree(c.low, c.high) {
        assert(shift_phase::<ArithmeticEncoder>(c) == shift_phase::<ArithmeticEncoder>(
            shift_once(c),
        ));
        assert(shift_phase::<ArithmeticDecoder>(d) == shift_phase::<ArithmeticDecoder>(
            dec_shift_once(d),
        ));
        lemma_same_shifts(shift_once(c), dec_shift_once(d));
    }
}

/// Both halves go through the same underflows from the same interval.
proof fn lemma_same_underflows(c: Coding<EncoderHook>, d: Coding<DecoderHook>)
    requires
        c.low == d.low,
        c.high == d.high,
    ensures
        underflow_phase::<ArithmeticEncoder>(c).low == underflow_phase::<ArithmeticDecoder>(d).low,
        underflow_phase::<ArithmeticEncoder>(c).high == underflow_phase::<ArithmeticDecoder>(
            d,
        ).high,
    decreases FULL_RANGE - (c.high - c.low + 1),
{
    if straddles(c.low, c.high) {
        assert(underflow_phase::<ArithmeticEncoder>(c) == underflow_phase::<ArithmeticEncoder>(
            underflow_once(c),
        ));
        assert(underflow_phase::<ArithmeticDecoder>(d) == underflow_phase::<ArithmeticDecoder>(
            dec_underflow_once(d),
        ));
        lemma_same_underflows(underflow_once(c), dec_underflow_once(d));
    }
}

/// An encoder and a decoder that stand at the same interval and code the same
/// slot stand at the same interval afterwards, whatever else they hold.
pub proof fn lemma_same_transitions(c: Coding<EncoderHook>, d: Coding<DecoderHook>, slot: Slot)
    requires
        c.low == d.low,
        c.high == d.high,
    ensures
        coded::<ArithmeticEncoder>(c, slot).low == coded::<ArithmeticDecoder>(d, slot).low,
        coded::<ArithmeticEncoder>(c, slot).high == coded::<ArithmeticDecoder>(d, slot).high,
{
    let cn = narrow::<ArithmeticEncoder>(c, slot);
    let dn = narrow::<ArithmeticDecoder>(d, slot);
    lemma_same_shifts(cn, dn);
    lemma_same_underflows(
        shift_phase::<ArithmeticEncoder>(cn),
        shift_phase::<ArithmeticDecoder>(dn),
    );
}

} // verus!
