//! Decompressing what was compressed gives back the input.

use vstd::prelude::*;
use super::super::arithmetic_coder::base::{coded, interval_ok, Coding, MAXIMUM_TOTAL};
use super::super::arithmetic_coder::decoder::{ArithmeticDecoder, DecoderHook};
use super::super::arithmetic_coder::encoder::{
    encode_all, lemma_encode_all_empty, ArithmeticEncoder, EncoderHook, Event,
};
use super::super::arithmetic_coder::roundtrip::{
    bit_at, event_ok, event_slot, events_ok, lemma_encode_all_concat, lemma_event_roundtrip,
    lemma_initial_sync, stream, sync,
};
use super::super::arithmetic_coder::{lemma_flat_cumulative, sum, Symbol};
use super::context::{lemma_fresh_table, Tables};
use super::model::{incremented, lemma_incremented_ok, suffix, tables_ok};
use super::{
    compressed, decode_run, decoded_from, decompressed, encode_run, flat_table, initial_decoder,
    initial_encoder, initial_tables, next_history, read_event, symbol_events, EOF, ESCAPE_SYMBOL,
    MAX_SYMBOLS, SYMBOL_LIMIT,
};
use crate::bitio::{byte_bits, bytes_to_bits, lemma_unpack_pack, pack_bits};

verus! {

/// All coding steps for the bytes `input` and the end marker, starting from
/// tables `m` and history `h`.
pub open spec fn run_events(m: Tables, h: Seq<Symbol>, order: int, input: Seq<u8>) -> Seq<Event>
    decreases input.len(),
{
    if input.len() == 0 {
        symbol_events(m, h, EOF, h.len() as int)
    } else {
        let symbol = input[0] as Symbol;
        symbol_events(m, h, symbol, h.len() as int) + run_events(
            incremented(m, h, symbol, SYMBOL_LIMIT, ESCAPE_SYMBOL),
            next_history(h, symbol, order),
            order,
            input.skip(1),
        )
    }
}

/// The steps for one symbol are steps the coder accepts, and there is at least one.
pub proof fn lemma_symbol_events_ok(m: Tables, h: Seq<Symbol>, symbol: Symbol, order: int)
    requires
        tables_ok(m, SYMBOL_LIMIT, ESCAPE_SYMBOL),
        sum(m[Seq::<Symbol>::empty()]) <= MAXIMUM_TOTAL,
        symbol <= EOF,
    ensures
        events_ok(symbol_events(m, h, symbol, order)),
        symbol_events(m, h, symbol, order).len() > 0,
    decreases order + 1,
{
    let events = symbol_events(m, h, symbol, order);
    if order < 0 {
        lemma_flat_cumulative(SYMBOL_LIMIT as nat, SYMBOL_LIMIT as int);
        assert(event_ok(events[0]));
    } else {
        lemma_symbol_events_ok(m, h, symbol, order - 1);
        let lower = symbol_events(m, h, symbol, order - 1);
        let p = suffix(h, order);
        if m.contains_key(p) {
            let table = m[p];
            if symbol != EOF && table[symbol as int] > 0 {
                assert(event_ok(events[0]));
            } else {
                let first = Event { table, symbol: EOF };
                assert(event_ok(first));
                assert forall|k: int| 0 <= k < events.len() implies event_ok(
                    #[trigger] events[k],
                ) by {
                    if k > 0 {
                        assert(events[k] == lower[k - 1]);
                    }
                }
            }
        }
    }
}

/// Accepted steps followed by accepted steps are accepted steps.
pub proof fn lemma_events_ok_concat(a: Seq<Event>, b: Seq<Event>)
    requires
        events_ok(a),
        events_ok(b),
    ensures
        events_ok(a + b),
{
    assert forall|k: int| 0 <= k < (a + b).len() implies event_ok(#[trigger] (a + b)[k]) by {
        if k < a.len() {
            assert((a + b)[k] == a[k]);
        } else {
            assert((a + b)[k] == b[k - a.len()]);
        }
    }
}

/// The steps of a whole run are steps the coder accepts, as long as the input
/// is short enough for the root context's total to stay within the limit.
pub proof fn lemma_run_events_ok(m: Tables, h: Seq<Symbol>, order: int, input: Seq<u8>)
    requires
        tables_ok(m, SYMBOL_LIMIT, ESCAPE_SYMBOL),
        sum(m[Seq::<Symbol>::empty()]) + input.len() <= MAXIMUM_TOTAL,
    ensures
        events_ok(run_events(m, h, order, input)),
    decreases input.len(),
{
    if input.len() == 0 {
        lemma_symbol_events_ok(m, h, EOF, h.len() as int);
    } else {
        let symbol = input[0] as Symbol;
        lemma_symbol_events_ok(m, h, symbol, h.len() as int);
        lemma_incremented_ok(m, h, symbol, SYMBOL_LIMIT, ESCAPE_SYMBOL);
        let m2 = incremented(m, h, symbol, SYMBOL_LIMIT, ESCAPE_SYMBOL);
        let h2 = next_history(h, symbol, order);
        lemma_run_events_ok(m2, h2, order, input.skip(1));
        lemma_events_ok_concat(
            symbol_events(m, h, symbol, h.len() as int),
            run_events(m2, h2, order, input.skip(1)),
        );
    }
}

/// A run of the encoder is the coding of the run's steps.
pub proof fn lemma_run_is_events(
    m: Tables,
    h: Seq<Symbol>,
    order: int,
    c: Coding<EncoderHook>,
    input: Seq<u8>,
)
    ensures
        encode_run(m, h, order, c, input) == encode_all(c, run_events(m, h, order, input)),
    decreases input.len(),
{
    if input.len() > 0 {
        let symbol = input[0] as Symbol;
        let first = symbol_events(m, h, symbol, h.len() as int);
        let m2 = incremented(m, h, symbol, SYMBOL_LIMIT, ESCAPE_SYMBOL);
        let h2 = next_history(h, symbol, order);
        lemma_run_is_events(m2, h2, order, encode_all(c, first), input.skip(1));
        lemma_encode_all_concat(c, first, run_events(m2, h2, order, input.skip(1)));
    }
}

/// Coding a single step.
proof fn lemma_encode_one(c: Coding<EncoderHook>, ev: Event, rest: Seq<Event>)
    ensures
        encode_all(c, seq![ev]) == coded::<ArithmeticEncoder>(c, event_slot(ev)),
        encode_all(c, seq![ev] + rest) == encode_all(
            coded::<ArithmeticEncoder>(c, event_slot(ev)),
            rest,
        ),
{
    let c2 = coded::<ArithmeticEncoder>(c, event_slot(ev));
    lemma_encode_all_empty(c2);
    assert(seq![ev].skip(1) =~= Seq::<Event>::empty());
    assert((seq![ev] + rest).skip(1) =~= rest);
    assert((seq![ev] + rest)[0] == ev);
}

/// One symbol of the round trip: a decoder in step with the encoder reads the
/// symbol that the encoder codes next, through the same contexts, and is in
/// step again afterwards.
pub proof fn lemma_symbol_roundtrip(
    m: Tables,
    h: Seq<Symbol>,
    symbol: Symbol,
    order: int,
    c: Coding<EncoderHook>,
    d: Coding<DecoderHook>,
    rest: Seq<Event>,
    s: Seq<bool>,
)
    requires
        tables_ok(m, SYMBOL_LIMIT, ESCAPE_SYMBOL),
        sum(m[Seq::<Symbol>::empty()]) <= MAXIMUM_TOTAL,
        symbol <= EOF,
        interval_ok(c.low, c.high),
        events_ok(rest),
        sync(c, d, s),
        s == stream(c, symbol_events(m, h, symbol, order) + rest),
    ensures
        ({
            let c2 = encode_all(c, symbol_events(m, h, symbol, order));
            let r = decoded_from(m, h, d, order);
            &&& r.0 == symbol
            &&& sync(c2, r.1, s)
            &&& interval_ok(c2.low, c2.high)
            &&& s == stream(c2, rest)
        }),
    decreases order + 1,
{
    let mine = symbol_events(m, h, symbol, order);
    let events = mine + rest;
    lemma_symbol_events_ok(m, h, symbol, order);
    lemma_events_ok_concat(mine, rest);
    if order < 0 {
        let ev = Event { table: flat_table(), symbol };
        assert(mine =~= seq![ev]);
        assert(events[0] == ev);
        assert(events.skip(1) =~= rest);
        lemma_event_roundtrip(c, d, events, s);
        lemma_encode_one(c, ev, rest);
    } else {
        let p = suffix(h, order);
        if m.contains_key(p) {
            let table = m[p];
            if symbol != EOF && table[symbol as int] > 0 {
                let ev = Event { table, symbol };
                assert(mine =~= seq![ev]);
                assert(events[0] == ev);
                assert(events.skip(1) =~= rest);
                lemma_event_roundtrip(c, d, events, s);
                lemma_encode_one(c, ev, rest);
            } else {
                let ev = Event { table, symbol: EOF };
                let lower = symbol_events(m, h, symbol, order - 1);
                assert(mine == seq![ev] + lower);
                assert(events[0] == ev);
                assert(events.skip(1) =~= lower + rest);
                lemma_event_roundtrip(c, d, events, s);
                lemma_encode_one(c, ev, lower);
                let c1 = coded::<ArithmeticEncoder>(c, event_slot(ev));
                let d1 = coded::<ArithmeticDecoder>(d, event_slot(ev));
                assert(read_event(d, table) == (EOF as int, d1));
                lemma_symbol_roundtrip(m, h, symbol, order - 1, c1, d1, rest, s);
            }
        } else {
            lemma_symbol_roundtrip(m, h, symbol, order - 1, c, d, rest, s);
        }
    }
}

/// A whole run of the round trip: a decoder in step with the encoder before a
/// run recovers the run's input.
pub proof fn lemma_run_roundtrip(
    m: Tables,
    h: Seq<Symbol>,
    order: int,
    c: Coding<EncoderHook>,
    d: Coding<DecoderHook>,
    input: Seq<u8>,
    fuel: nat,
    s: Seq<bool>,
)
    requires
        tables_ok(m, SYMBOL_LIMIT, ESCAPE_SYMBOL),
        sum(m[Seq::<Symbol>::empty()]) + input.len() <= MAXIMUM_TOTAL,
        fuel > input.len(),
        interval_ok(c.low, c.high),
        sync(c, d, s),
        s == stream(c, run_events(m, h, order, input)),
    ensures
        decode_run(m, h, order, d, fuel) == Some(input),
    decreases input.len(),
{
    let none = Seq::<Event>::empty();
    if input.len() == 0 {
        let mine = symbol_events(m, h, EOF, h.len() as int);
        assert(mine + none =~= mine);
        lemma_symbol_roundtrip(m, h, EOF, h.len() as int, c, d, none, s);
        assert(input =~= Seq::<u8>::empty());
    } else {
        let symbol = input[0] as Symbol;
        let m2 = incremented(m, h, symbol, SYMBOL_LIMIT, ESCAPE_SYMBOL);
        let h2 = next_history(h, symbol, order);
        let rest = run_events(m2, h2, order, input.skip(1));
        lemma_incremented_ok(m, h, symbol, SYMBOL_LIMIT, ESCAPE_SYMBOL);
        lemma_run_events_ok(m2, h2, order, input.skip(1));
        lemma_symbol_roundtrip(m, h, symbol, h.len() as int, c, d, rest, s);
        let c2 = encode_all(c, symbol_events(m, h, symbol, h.len() as int));
        let r = decoded_from(m, h, d, h.len() as int);
        lemma_run_roundtrip(m2, h2, order, c2, r.1, input.skip(1), (fuel - 1) as nat, s);
        assert(r.0 as Symbol == symbol);
        assert(symbol as u8 == input[0]);
        assert(seq![input[0]] + input.skip(1) =~= input);
    }
}

/// The bytes that the encoder hands out hold, bit for bit, its whole stream:
/// the terminating bit is in a whole byte, and only clear bits are cut off or
/// added.
pub proof fn lemma_packed_stream(s: Seq<bool>)
    ensures
        forall|i: int|
            i >= 0 ==> bit_at(bytes_to_bits(pack_bits(s + byte_bits(0))), i) == #[trigger] bit_at(
                s,
                i,
            ),
{
    let t = s + byte_bits(0);
    let unpacked = bytes_to_bits(pack_bits(t));
    let n = 8 * (t.len() / 8);
    assert(t.len() == s.len() + 8);
    assert(n >= s.len());
    assert(unpacked.len() == n);
    assert forall|i: int| i >= 0 implies bit_at(unpacked, i) == #[trigger] bit_at(s, i) by {
        if i < n {
            lemma_unpack_pack(t, i);
            if i >= s.len() {
                assert(t[i] == byte_bits(0)[i - s.len()]);
            } else {
                assert(t[i] == s[i]);
            }
        }
    }
}

/// Decompressing what was compressed gives back the input, for every input the
/// coder accepts and every order of the model.
pub proof fn theorem_ppm_roundtrip(input: Seq<u8>, order: int)
    requires
        input.len() <= MAX_SYMBOLS,
    ensures
        decompressed(compressed(input, order), order) == Some(input),
{
    let root = Seq::<Symbol>::empty();
    let m = initial_tables();
    let c = initial_encoder();
    let events = run_events(m, root, order, input);
    lemma_fresh_table(SYMBOL_LIMIT, ESCAPE_SYMBOL);
    assert(tables_ok(m, SYMBOL_LIMIT, ESCAPE_SYMBOL)) by {
        assert forall|p: Seq<Symbol>| #[trigger] m.contains_key(p) implies p == root by {}
    }
    lemma_run_is_events(m, root, order, c, input);
    let s = stream(c, events);
    let bytes = compressed(input, order);
    assert(bytes == pack_bits(s + byte_bits(0)));
    lemma_packed_stream(s);
    lemma_initial_sync(c, bytes_to_bits(bytes), s);
    lemma_run_roundtrip(
        m,
        root,
        order,
        c,
        initial_decoder(bytes),
        input,
        MAXIMUM_TOTAL as nat,
        s,
    );
}

/// The compressed form of an input has a length that fits in eight bytes.
pub proof fn lemma_compressed_len(input: Seq<u8>, order: int)
    requires
        input.len() <= MAX_SYMBOLS,
    ensures
        compressed(input, order).len() <= u64::MAX,
{
    let root = Seq::<Symbol>::empty();
    let m = initial_tables();
    let c = initial_encoder();
    lemma_fresh_table(SYMBOL_LIMIT, ESCAPE_SYMBOL);
    assert(tables_ok(m, SYMBOL_LIMIT, ESCAPE_SYMBOL)) by {
        assert forall|p: Seq<Symbol>| #[trigger] m.contains_key(p) implies p == root by {}
    }
    lemma_run_is_events(m, root, order, c, input);
    lemma_run_events_ok(m, root, order, input);
    lemma_run_events_len(m, root, order, input);
    let events = run_events(m, root, order, input);
    super::super::arithmetic_coder::roundtrip::lemma_encode_all_bits(c, events);
    let n = input.len() as int;
    let steps = events.len() as int;
    assert(steps <= 0x4000_0002 * 0x4000_0003) by (nonlinear_arith)
        requires
            steps <= (n + 1) * (0 + n + 2),
            0 <= n <= 0x4000_0001,
    ;
    let bits = encode_all(c, events).hook.bits;
    assert((bits.push(true) + byte_bits(0)).len() == bits.len() + 9);
}

/// There are at most two more steps for one symbol than the order it starts at.
pub proof fn lemma_symbol_events_len(m: Tables, h: Seq<Symbol>, symbol: Symbol, order: int)
    requires
        order >= -1,
    ensures
        symbol_events(m, h, symbol, order).len() <= order + 2,
    decreases order + 1,
{
    if order >= 0 {
        lemma_symbol_events_len(m, h, symbol, order - 1);
    }
}

/// The number of steps of a run is bounded by the length of the input and of
/// the history it starts with.
pub proof fn lemma_run_events_len(m: Tables, h: Seq<Symbol>, order: int, input: Seq<u8>)
    ensures
        run_events(m, h, order, input).len() <= (input.len() + 1) * (h.len() + input.len() + 2),
    decreases input.len(),
{
    let n = input.len() as int;
    let k = h.len() as int;
    let total = run_events(m, h, order, input).len() as int;
    if n == 0 {
        lemma_symbol_events_len(m, h, EOF, k);
        assert((n + 1) * (k + n + 2) == k + 2) by (nonlinear_arith)
            requires
                n == 0,
        ;
    } else {
        let symbol = input[0] as Symbol;
        let m2 = incremented(m, h, symbol, SYMBOL_LIMIT, ESCAPE_SYMBOL);
        let h2 = next_history(h, symbol, order);
        lemma_symbol_events_len(m, h, symbol, k);
        lemma_run_events_len(m2, h2, order, input.skip(1));
        let k2 = h2.len() as int;
        let first = symbol_events(m, h, symbol, k).len() as int;
        let rest = run_events(m2, h2, order, input.skip(1)).len() as int;
        assert(total == first + rest);
        assert(rest <= ((n - 1) + 1) * (k2 + (n - 1) + 2));
        assert(k2 <= k + 1);
        assert(first + rest <= (n + 1) * (k + n + 2)) by (nonlinear_arith)
            requires
                first <= k + 2,
                rest <= ((n - 1) + 1) * (k2 + (n - 1) + 2),
                k2 <= k + 1,
                n >= 1,
                k >= 0,
        ;
    }
}

} // verus!
