use vstd::prelude::*;
use vstd::slice::slice_subrange;
use super::arithmetic_coder::base::{
    coded, interval_ok, slot_of, width_ok, ArithmeticCoderBase, Coding, MAXIMUM_TOTAL,
    STATE_MASK,
};
use super::arithmetic_coder::decoder::{decoded_symbol, primed, ArithmeticDecoder, DecoderHook};
use super::arithmetic_coder::encoder::{
    encode_all, lemma_encode_all_empty, ArithmeticEncoder, EncoderHook, Event,
};
use super::arithmetic_coder::{lemma_flat_cumulative, sum, FrequencyTable, Symbol};
use crate::bitio::{byte_bits, bytes_to_bits, pack_bits};
use crate::error::CodingError;
use self::context::{fresh_table, Context, Tables};
use self::model::{incremented, suffix, PPMModel};

pub mod context;
pub mod model;
pub mod roundtrip;

verus! {

/// The symbol that ends a stream.
pub const EOF: Symbol = 256;

/// The longest history the model looks at by default.
pub const ORDER: u8 = 2;

/// One more than the largest symbol.
pub const SYMBOL_LIMIT: u16 = 257;

/// The symbol that tells the decoder to look in the next shorter context.
pub const ESCAPE_SYMBOL: Symbol = 256;

/// Width of the coder's registers in bits.
pub const NUM_BITS: usize = 32;

/// The longest input that can be coded: with one more symbol the root context's
/// total would exceed what the coder accepts.
pub const MAX_SYMBOLS: usize = 0x4000_0001;

/// The table of the context below order zero: every symbol once.
pub open spec fn flat_table() -> Seq<usize> {
    Seq::new(SYMBOL_LIMIT as nat, |i: int| 1usize)
}

/// The tables of a model that has seen nothing.
pub open spec fn initial_tables() -> Tables {
    Map::<Seq<Symbol>, Seq<usize>>::empty().insert(
        Seq::<Symbol>::empty(),
        fresh_table(SYMBOL_LIMIT, ESCAPE_SYMBOL),
    )
}

/// The history after `symbol`: the last `order` symbols seen.
pub open spec fn next_history(h: Seq<Symbol>, symbol: Symbol, order: int) -> Seq<Symbol> {
    if order < 1 {
        h
    } else if h.len() >= order {
        h.skip(1).push(symbol)
    } else {
        h.push(symbol)
    }
}

/// The coding steps for `symbol` from the context of the last `order` symbols of
/// `h` downwards: an escape in every existing context that cannot code the
/// symbol, then the symbol itself in the first context that can, or in the flat
/// table when none can.
pub open spec fn symbol_events(m: Tables, h: Seq<Symbol>, symbol: Symbol, order: int) -> Seq<Event>
    decreases order + 1,
{
    if order < 0 {
        seq![Event { table: flat_table(), symbol }]
    } else if m.contains_key(suffix(h, order)) {
        let table = m[suffix(h, order)];
        if symbol != EOF && table[symbol as int] > 0 {
            seq![Event { table, symbol }]
        } else {
            seq![Event { table, symbol: EOF }] + symbol_events(m, h, symbol, order - 1)
        }
    } else {
        symbol_events(m, h, symbol, order - 1)
    }
}

/// The encoder after the bytes `input` and the end marker, starting from tables
/// `m` and history `h`.
pub open spec fn encode_run(
    m: Tables,
    h: Seq<Symbol>,
    order: int,
    c: Coding<EncoderHook>,
    input: Seq<u8>,
) -> Coding<EncoderHook>
    decreases input.len(),
{
    if input.len() == 0 {
        encode_all(c, symbol_events(m, h, EOF, h.len() as int))
    } else {
        let symbol = input[0] as Symbol;
        encode_run(
            incremented(m, h, symbol, SYMBOL_LIMIT, ESCAPE_SYMBOL),
            next_history(h, symbol, order),
            order,
            encode_all(c, symbol_events(m, h, symbol, h.len() as int)),
            input.skip(1),
        )
    }
}

/// An encoder that has written nothing yet.
pub open spec fn initial_encoder() -> Coding<EncoderHook> {
    Coding {
        low: 0,
        high: STATE_MASK as int,
        hook: EncoderHook { pending: 0, bits: Seq::<bool>::empty() },
    }
}

/// The compressed form of `input` under a model of the given order.
pub open spec fn compressed(input: Seq<u8>, order: int) -> Seq<u8> {
    pack_bits(
        encode_run(
            initial_tables(),
            Seq::<Symbol>::empty(),
            order,
            initial_encoder(),
            input,
        ).hook.bits.push(true) + byte_bits(0),
    )
}

/// What the decoder reads against one table: the symbol, and its state afterwards.
pub open spec fn read_event(d: Coding<DecoderHook>, table: Seq<usize>) -> (
    int,
    Coding<DecoderHook>,
) {
    let symbol = decoded_symbol(table, d.low, d.high, d.hook.code);
    (symbol, coded::<ArithmeticDecoder>(d, slot_of(table, symbol)))
}

/// What the decoder reads from the context of the last `order` symbols of `h`
/// downwards: it reads in every existing context until one gives something
/// other than the escape symbol, and in the flat table when none does.
pub open spec fn decoded_from(m: Tables, h: Seq<Symbol>, d: Coding<DecoderHook>, order: int) -> (
    int,
    Coding<DecoderHook>,
)
    decreases order + 1,
{
    if order < 0 {
        read_event(d, flat_table())
    } else if m.contains_key(suffix(h, order)) {
        let (symbol, next) = read_event(d, m[suffix(h, order)]);
        if symbol < EOF {
            (symbol, next)
        } else {
            decoded_from(m, h, next, order - 1)
        }
    } else {
        decoded_from(m, h, d, order - 1)
    }
}

/// The bytes that the decoder recovers before the end marker, reading at most
/// `fuel` symbols; `None` when the end marker does not come in time.
pub open spec fn decode_run(
    m: Tables,
    h: Seq<Symbol>,
    order: int,
    d: Coding<DecoderHook>,
    fuel: nat,
) -> Option<Seq<u8>>
    decreases fuel,
{
    if fuel == 0 {
        None
    } else {
        let (symbol, next) = decoded_from(m, h, d, h.len() as int);
        if symbol == EOF {
            Some(Seq::<u8>::empty())
        } else {
            match decode_run(
                incremented(m, h, symbol as Symbol, SYMBOL_LIMIT, ESCAPE_SYMBOL),
                next_history(h, symbol as Symbol, order),
                order,
                next,
                (fuel - 1) as nat,
            ) {
                Some(rest) => Some(seq![symbol as u8] + rest),
                None => None,
            }
        }
    }
}

/// A decoder at the start of `bytes`.
pub open spec fn initial_decoder(bytes: Seq<u8>) -> Coding<DecoderHook> {
    Coding { low: 0, high: STATE_MASK as int, hook: primed(bytes_to_bits(bytes), 32) }
}

/// What `bytes` decompress to under a model of the given order; `None` when
/// they hold no end marker within the longest input that can be coded.
pub open spec fn decompressed(bytes: Seq<u8>, order: int) -> Option<Seq<u8>> {
    decode_run(
        initial_tables(),
        Seq::<Symbol>::empty(),
        order,
        initial_decoder(bytes),
        MAXIMUM_TOTAL as nat,
    )
}

/// `r` with `done` in front of it.
pub open spec fn prepend(done: Seq<u8>, r: Option<Seq<u8>>) -> Option<Seq<u8>> {
    match r {
        Some(rest) => Some(done + rest),
        None => None,
    }
}

/// Compresses `data` with the default model.
pub fn apply(data: &[u8]) -> (r: Result<Vec<u8>, CodingError>)
    requires
        data@.len() <= MAX_SYMBOLS,
    ensures
        r matches Ok(bytes) && bytes@ == compressed(data@, ORDER as int),
{
    compress(data, ORDER)
}

/// Decompresses `data` with the default model.
pub fn reduce(data: &[u8]) -> (r: Result<Vec<u8>, CodingError>)
    ensures
        match decompressed(data@, ORDER as int) {
            Some(bytes) => r matches Ok(v) && v@ == bytes,
            None => r == Err::<Vec<u8>, CodingError>(CodingError::CorruptInput),
        },
{
    decompress(data, ORDER)
}

/// Compresses `data` with a model that looks at up to `order` symbols of history.
pub fn compress(data: &[u8], order: u8) -> (r: Result<Vec<u8>, CodingError>)
    requires
        data@.len() <= MAX_SYMBOLS,
    ensures
        r matches Ok(bytes) && bytes@ == compressed(data@, order as int),
{
    let mut encoder = ArithmeticEncoder::new(Vec::with_capacity(data.len() / 4), NUM_BITS);
    let mut model = PPMModel::new(order, SYMBOL_LIMIT, ESCAPE_SYMBOL);
    let mut history: Vec<Symbol> = Vec::with_capacity(model.order as usize);
    proof {
        assert(bytes_to_bits(Seq::<u8>::empty()) =~= Seq::<bool>::empty());
        assert(encoder.coding() == initial_encoder());
        assert(model@[Seq::<Symbol>::empty()] == fresh_table(SYMBOL_LIMIT, ESCAPE_SYMBOL));
        self::context::lemma_fresh_table(SYMBOL_LIMIT, ESCAPE_SYMBOL);
        assert(data@.skip(0) =~= data@);
    }

    let mut i: usize = 0;
    while i < data.len()
        invariant
            i <= data@.len() <= MAX_SYMBOLS,
            model.wf(),
            model.order == order,
            model.symbol_limit == SYMBOL_LIMIT,
            model.escape_symbol == ESCAPE_SYMBOL,
            sum(model@[Seq::<Symbol>::empty()]) == 1 + i,
            history@.len() <= order,
            encoder.wf(),
            interval_ok(encoder.spec_low() as int, encoder.spec_high() as int),
            encoder.budget() >= u64::MAX - i * 8224,
            encode_run(model@, history@, order as int, encoder.coding(), data@.skip(i as int))
                == encode_run(
                initial_tables(),
                Seq::<Symbol>::empty(),
                order as int,
                initial_encoder(),
                data@,
            ),
        decreases data@.len() - i,
    {
        let symbol: u16 = data[i] as u16;
        proof {
            assert(data@.skip(i as int)[0] == data@[i as int]);
            assert(data@.skip(i as int).skip(1) =~= data@.skip(i + 1));
            assert(i * 8224 <= 0x4000_0001 * 8224) by (nonlinear_arith)
                requires
                    i <= 0x4000_0001,
            ;
        }
        encode_symbol(&model, history.as_slice(), symbol, &mut encoder)?;
        model.increment_contexts(history.as_slice(), symbol);

        if model.order >= 1 {
            mutate_history(symbol, model.order, &mut history);
        }
        i = i + 1;
    }

    // Encode EOF
    proof {
        assert(data@.skip(i as int).len() == 0);
        assert(i * 8224 <= 0x4000_0001 * 8224) by (nonlinear_arith)
            requires
                i <= 0x4000_0001,
        ;
    }
    encode_symbol(&model, history.as_slice(), EOF, &mut encoder)?;
    encoder.finish()?;
    Ok(encoder.inner_ref())
}

/// Decompresses `data` with a model that looks at up to `order` symbols of history.
pub fn decompress(data: &[u8], order: u8) -> (r: Result<Vec<u8>, CodingError>)
    ensures
        match decompressed(data@, order as int) {
            Some(bytes) => r matches Ok(v) && v@ == bytes,
            None => r == Err::<Vec<u8>, CodingError>(CodingError::CorruptInput),
        },
{
    let mut decoder = match ArithmeticDecoder::new(data, NUM_BITS) {
        Ok(d) => d,
        Err(e) => {
            return Err(e);
        },
    };
    let mut model = PPMModel::new(order, SYMBOL_LIMIT, ESCAPE_SYMBOL);

    let mut history: Vec<u16> = Vec::with_capacity(model.order as usize);
    let mut buffer: Vec<u8> = Vec::with_capacity(data.len());
    let mut fuel: u64 = MAXIMUM_TOTAL;
    proof {
        assert(decoder.coding() == initial_decoder(data@));
        assert(model@[Seq::<Symbol>::empty()] == fresh_table(SYMBOL_LIMIT, ESCAPE_SYMBOL));
        self::context::lemma_fresh_table(SYMBOL_LIMIT, ESCAPE_SYMBOL);
        assert(decompressed(data@, order as int) == prepend(
            buffer@,
            decode_run(model@, history@, order as int, decoder.coding(), fuel as nat),
        )) by {
            let r = decode_run(model@, history@, order as int, decoder.coding(), fuel as nat);
            if r is Some {
                assert(buffer@ + r.unwrap() =~= r.unwrap());
            }
        }
    }

    while fuel > 0
        invariant
            model.wf(),
            model.order == order,
            model.symbol_limit == SYMBOL_LIMIT,
            model.escape_symbol == ESCAPE_SYMBOL,
            sum(model@[Seq::<Symbol>::empty()]) + fuel == MAXIMUM_TOTAL + 1,
            history@.len() <= order,
            decoder.wf(),
            decoder.tracking(),
            decompressed(data@, order as int) == prepend(
                buffer@,
                decode_run(model@, history@, order as int, decoder.coding(), fuel as nat),
            ),
        decreases fuel,
    {
        let ghost before = decode_run(
            model@,
            history@,
            order as int,
            decoder.coding(),
            fuel as nat,
        );
        let ghost done = buffer@;
        let symbol: Symbol = match decode_symbol(&model, history.as_slice(), &mut decoder) {
            Ok(s) => s,
            Err(e) => {
                return Err(e);
            },
        };
        // Check if EOF symbol has occurred
        if symbol == EOF {
            proof {
                assert(done + Seq::<u8>::empty() =~= done);
            }
            return Ok(buffer);
        }
        buffer.push(symbol as u8);
        model.increment_contexts(history.as_slice(), symbol);

        if model.order >= 1 {
            mutate_history(symbol, model.order, &mut history);
        }
        fuel = fuel - 1;
        proof {
            let after = decode_run(model@, history@, order as int, decoder.coding(), fuel as nat);
            if after is Some {
                assert(done + (seq![symbol as u8] + after.unwrap()) =~= buffer@ + after.unwrap());
            }
        }
    }
    Err(CodingError::CorruptInput)
}

/// Appends `symbol` to `history`, dropping the oldest entry when `order` are
/// held. With order zero there is no history to keep, and nothing is done.
pub fn mutate_history(symbol: Symbol, order: u8, history: &mut Vec<Symbol>)
    ensures
        final(history)@ == next_history(old(history)@, symbol, order as int),
        old(history)@.len() <= order ==> final(history)@.len() <= order,
{
    if order == 0 {
        return ;
    }
    if history.len() >= order as usize {
        history.remove(0);
    }
    history.push(symbol);
    proof {
        if old(history)@.len() >= order {
            assert(old(history)@.remove(0) =~= old(history)@.skip(1));
        }
    }
}

/// The context that `history` leads to from `ctx`, if every step of it exists.
pub fn traverse_context<'a>(ctx: &'a Context, history: &[Symbol]) -> (r: Option<&'a Context>)
    ensures
        match r {
            Some(c) => ctx.descend(history@) == Some(*c),
            None => ctx.descend(history@) is None,
        },
{
    let mut cur: &Context = ctx;
    let mut i: usize = 0;
    proof {
        assert(history@.skip(0) =~= history@);
    }
    while i < history.len()
        invariant
            i <= history@.len(),
            ctx.descend(history@) == cur.descend(history@.skip(i as int)),
        decreases history@.len() - i,
    {
        proof {
            assert(history@.skip(i as int).skip(1) =~= history@.skip(i + 1));
            assert(history@.skip(i as int)[0] == history@[i as int]);
        }
        match cur.child(history[i]) {
            None => {
                return None;
            },
            Some(sub) => {
                cur = sub;
            },
        }
        i = i + 1;
    }
    Some(cur)
}

/// Codes `symbol` in the context of the longest suffix of `history` that knows
/// it, after an escape in every longer context that exists.
///
/// At every order from zero up the symbol 256 means "not here, try the next
/// shorter context"; in the flat table below order zero it means the end of
/// the stream.
pub fn encode_symbol(
    model: &PPMModel,
    history: &[Symbol],
    symbol: Symbol,
    encoder: &mut ArithmeticEncoder,
) -> (r: Result<(), CodingError>)
    requires
        model.wf(),
        model.symbol_limit == SYMBOL_LIMIT,
        model.escape_symbol == ESCAPE_SYMBOL,
        symbol <= EOF,
        history@.len() <= 255,
        sum(model@[Seq::<Symbol>::empty()]) <= MAXIMUM_TOTAL,
        old(encoder).wf(),
        width_ok(old(encoder).spec_low() as int, old(encoder).spec_high() as int),
        old(encoder).budget() >= 32 * (history@.len() + 2),
    ensures
        r is Ok && {
            &&& final(encoder).wf()
            &&& final(encoder).coding() == encode_all(
                old(encoder).coding(),
                symbol_events(model@, history@, symbol, history@.len() as int),
            )
            &&& interval_ok(final(encoder).spec_low() as int, final(encoder).spec_high() as int)
            &&& final(encoder).budget() >= old(encoder).budget() - 32 * (history@.len() + 2)
        },
{
    let hist_len: usize = history.len();
    let ghost m = model@;
    let ghost goal = encode_all(
        encoder.coding(),
        symbol_events(m, history@, symbol, hist_len as int),
    );
    let mut above: usize = hist_len + 1;
    while above > 0
        invariant
            hist_len == history@.len(),
            hist_len <= 255,
            above <= hist_len + 1,
            model.wf(),
            m == model@,
            model.symbol_limit == SYMBOL_LIMIT,
            model.escape_symbol == ESCAPE_SYMBOL,
            symbol <= EOF,
            sum(m[Seq::<Symbol>::empty()]) <= MAXIMUM_TOTAL,
            encoder.wf(),
            width_ok(encoder.spec_low() as int, encoder.spec_high() as int),
            encoder.budget() >= old(encoder).budget() - 32 * (hist_len + 1 - above),
            old(encoder).budget() >= 32 * (hist_len + 2),
            goal == encode_all(
                old(encoder).coding(),
                symbol_events(m, history@, symbol, hist_len as int),
            ),
            encode_all(encoder.coding(), symbol_events(m, history@, symbol, above - 1)) == goal,
        decreases above,
    {
        let order: usize = above - 1;
        let ghost events = symbol_events(m, history@, symbol, order as int);
        let ghost path = suffix(history@, order as int);
        let recent: &[Symbol] = slice_subrange(history, hist_len - order, hist_len);
        match traverse_context(&model.context, recent) {
            None => {},
            Some(ctx) => {
                proof {
                    assert(model.context.descend(path) == Some(*ctx));
                    assert(m.contains_key(path));
                    assert(m[path] == ctx.frequencies.freqs());
                }
                if symbol != EOF && ctx.frequencies.get(symbol) > 0 {
                    proof {
                        assert(events.skip(1) =~= Seq::<Event>::empty());
                        lemma_encode_all_empty(
                            coded::<ArithmeticEncoder>(
                                encoder.coding(),
                                slot_of(m[path], symbol as int),
                            ),
                        );
                    }
                    return encoder.write(&ctx.frequencies, symbol);
                }
                // Else write context escape symbol and continue decrementing the order
                proof {
                    assert(events.skip(1) =~= symbol_events(m, history@, symbol, order - 1));
                }
                encoder.write(&ctx.frequencies, EOF)?;
            },
        }
        above = above - 1;
    }
    // Logic for order = -1
    proof {
        let events = symbol_events(m, history@, symbol, -1);
        assert(events.skip(1) =~= Seq::<Event>::empty());
        lemma_flat_cumulative(SYMBOL_LIMIT as nat, SYMBOL_LIMIT as int);
        assert(model.order_minus1_freqs.freqs() =~= flat_table());
        lemma_encode_all_empty(
            coded::<ArithmeticEncoder>(encoder.coding(), slot_of(flat_table(), symbol as int)),
        );
    }
    encoder.write(&model.order_minus1_freqs, symbol)
}

/// Reads a symbol in the context of the longest suffix of `history` that
/// exists, and on every escape in the next shorter one.
///
/// At every order from zero up the symbol 256 means "not here, try the next
/// shorter context"; in the flat table below order zero it means the end of
/// the stream.
pub fn decode_symbol(model: &PPMModel, history: &[Symbol], decoder: &mut ArithmeticDecoder) -> (r:
    Result<Symbol, CodingError>)
    requires
        model.wf(),
        model.symbol_limit == SYMBOL_LIMIT,
        model.escape_symbol == ESCAPE_SYMBOL,
        history@.len() <= 255,
        sum(model@[Seq::<Symbol>::empty()]) <= MAXIMUM_TOTAL,
        old(decoder).wf(),
        width_ok(old(decoder).spec_low() as int, old(decoder).spec_high() as int),
        old(decoder).spec_low() <= old(decoder).hook().code <= old(decoder).spec_high(),
    ensures
        r matches Ok(symbol) && {
            &&& final(decoder).wf()
            &&& final(decoder).tracking()
            &&& symbol <= EOF
            &&& (symbol as int, final(decoder).coding()) == decoded_from(
                model@,
                history@,
                old(decoder).coding(),
                history@.len() as int,
            )
        },
{
    let hist_len: usize = history.len();
    let ghost m = model@;
    let ghost goal = decoded_from(m, history@, decoder.coding(), hist_len as int);
    let mut above: usize = hist_len + 1;
    while above > 0
        invariant
            hist_len == history@.len(),
            hist_len <= 255,
            above <= hist_len + 1,
            model.wf(),
            m == model@,
            model.symbol_limit == SYMBOL_LIMIT,
            model.escape_symbol == ESCAPE_SYMBOL,
            sum(m[Seq::<Symbol>::empty()]) <= MAXIMUM_TOTAL,
            decoder.wf(),
            width_ok(decoder.spec_low() as int, decoder.spec_high() as int),
            decoder.spec_low() <= decoder.hook().code <= decoder.spec_high(),
            goal == decoded_from(m, history@, old(decoder).coding(), hist_len as int),
            decoded_from(m, history@, decoder.coding(), above - 1) == goal,
        decreases above,
    {
        let order: usize = above - 1;
        let ghost path = suffix(history@, order as int);
        let recent: &[Symbol] = slice_subrange(history, hist_len - order, hist_len);
        match traverse_context(&model.context, recent) {
            None => {},
            Some(ctx) => {
                proof {
                    assert(model.context.descend(path) == Some(*ctx));
                    assert(m.contains_key(path));
                    assert(m[path] == ctx.frequencies.freqs());
                }
                let ghost before = decoder.coding();
                let symbol: Symbol = match decoder.read(&ctx.frequencies) {
                    Ok(s) => s,
                    Err(e) => {
                        return Err(e);
                    },
                };
                proof {
                    assert(read_event(before, m[path]) == (symbol as int, decoder.coding()));
                }
                if symbol < EOF {
                    proof {
                        assert(decoded_from(m, history@, before, order as int) == (
                            symbol as int,
                            decoder.coding(),
                        ));
                    }
                    return Ok(symbol);
                }
                // Else we read the context escape symbol, so continue decrementing the order
            },
        }
        above = above - 1;
    }
    // Logic for order = -1
    proof {
        lemma_flat_cumulative(SYMBOL_LIMIT as nat, SYMBOL_LIMIT as int);
        assert(model.order_minus1_freqs.freqs() =~= flat_table());
    }
    decoder.read(&model.order_minus1_freqs)
}

} // verus!
