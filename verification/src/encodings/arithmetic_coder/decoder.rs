use vstd::prelude::*;
use vstd::arithmetic::power2::{
    lemma2_to64, lemma_pow2_strictly_increases, lemma_pow2_unfold, pow2,
};
use super::base::{
    coded, interval_ok, lemma_narrow_bounds, lemma_slot_ok, narrow, narrow_high, narrow_low,
    shift_phase, slot_of, slot_ok, straddles, top_bits_agree, underflow_phase, width_ok,
    ArithmeticCoderBase, CoderHooks, Coding, Slot, FULL_RANGE, HALF_RANGE, MAXIMUM_TOTAL,
    MINIMUM_RANGE, NUM_STATE_BITS, QUARTER_RANGE, STATE_MASK,
};
use super::{cumulative, lemma_cumulative_monotone, sum, FrequencyTable, Symbol};
use crate::bitio::{bit_value, bytes_to_bits, source_bits, source_new, source_next, BitSource};
use crate::error::CodingError;

verus! {

/// What the decoder keeps besides the interval.
pub struct DecoderHook {
    /// The window of input bits that is compared against the interval.
    pub code: int,
    /// The input bits not yet read.
    pub rest: Seq<bool>,
}

/// The next input bit; past the end of the input every bit is clear.
pub open spec fn next_bit(rest: Seq<bool>) -> bool {
    rest.len() > 0 && rest[0]
}

/// The input after reading one bit.
pub open spec fn after_bit(rest: Seq<bool>) -> Seq<bool> {
    if rest.len() > 0 {
        rest.skip(1)
    } else {
        rest
    }
}

/// The top bit of a register value, as a number.
pub open spec fn top_of(x: int) -> int {
    if x < HALF_RANGE {
        0
    } else {
        HALF_RANGE as int
    }
}

/// The hook after reading `n` bits into an empty window.
pub open spec fn primed(rest: Seq<bool>, n: nat) -> DecoderHook
    decreases n,
{
    if n == 0 {
        DecoderHook { code: 0, rest }
    } else {
        let h = primed(rest, (n - 1) as nat);
        DecoderHook { code: 2 * h.code + bit_value(next_bit(h.rest)), rest: after_bit(h.rest) }
    }
}

/// The scaled position of `code` within `[low, high]` on a scale of `total`.
pub open spec fn decode_value(low: int, high: int, code: int, total: int) -> int {
    ((code - low + 1) * total - 1) / (high - low + 1)
}

/// The largest symbol below `n` whose cumulative frequency does not exceed `value`.
pub open spec fn symbol_below(f: Seq<usize>, value: int, n: int) -> int
    decreases n,
{
    if n <= 1 {
        0
    } else if cumulative(f, n - 1) <= value {
        n - 1
    } else {
        symbol_below(f, value, n - 1)
    }
}

/// The symbol that a decoder in the given state reads from a table with frequencies `f`.
pub open spec fn decoded_symbol(f: Seq<usize>, low: int, high: int, code: int) -> int {
    symbol_below(f, decode_value(low, high, code, sum(f)), f.len() as int)
}

/// `symbol_below` finds the symbol whose slot contains `value`, and no other symbol has it.
pub proof fn lemma_symbol_below(f: Seq<usize>, value: int, n: int, s: int)
    requires
        0 <= s < n <= f.len(),
        cumulative(f, s) <= value,
        s + 1 < n ==> value < cumulative(f, s + 1),
    ensures
        symbol_below(f, value, n) == s,
    decreases n,
{
    if n > 1 && s < n - 1 {
        lemma_cumulative_monotone(f, s + 1, n - 1);
        lemma_symbol_below(f, value, n - 1, s);
    }
}

/// The scaled position lies in a symbol's slot exactly when the code lies in the
/// sub-interval that narrowing to that slot produces.
pub proof fn lemma_value_in_slot(low: int, high: int, code: int, s: Slot)
    requires
        0 <= low <= code <= high,
        slot_ok(s),
    ensures
        (s.symlow <= decode_value(low, high, code, s.total) < s.symhigh) <==> (narrow_low(
            low,
            high,
            s.symlow,
            s.total,
        ) <= code <= narrow_high(low, high, s.symhigh, s.total)),
        0 <= decode_value(low, high, code, s.total) < s.total,
{
    let range = high - low + 1;
    let offset = code - low;
    let t = s.total;
    let v = ((offset + 1) * t - 1) / range;
    assert(0 <= v < t) by (nonlinear_arith)
        requires
            v == ((offset + 1) * t - 1) / range,
            0 <= offset < range,
            t >= 1,
    ;
    lemma_floor_compare(s.symlow, range, t, offset, v);
    lemma_floor_compare(s.symhigh, range, t, offset, v);
}

/// `q * range / t <= offset` exactly when `q <= v`, for `v` the scaled position of `offset`.
proof fn lemma_floor_compare(q: int, range: int, t: int, offset: int, v: int)
    requires
        0 <= q,
        0 <= offset < range,
        t >= 1,
        v == ((offset + 1) * t - 1) / range,
    ensures
        (q * range / t <= offset) <==> (q <= v),
{
    let a = q * range;
    let b = (offset + 1) * t;
    assert(b >= 1 && a >= 0) by (nonlinear_arith)
        requires
            b == (offset + 1) * t,
            a == q * range,
            offset >= 0,
            t >= 1,
            q >= 0,
            range >= 1,
    ;
    // q * range / t <= offset  <==>  q * range < (offset + 1) * t
    assert((a / t <= offset) <==> (a < b)) by (nonlinear_arith)
        requires
            a >= 0,
            t >= 1,
            b == (offset + 1) * t,
    ;
    // q <= (b - 1) / range  <==>  q * range <= b - 1
    assert((q <= (b - 1) / range) <==> (a <= b - 1)) by (nonlinear_arith)
        requires
            a == q * range,
            range >= 1,
            b >= 1,
    ;
}

/// The decoding half of the range coder, reading bits from a byte slice.
pub struct ArithmeticDecoder<'a> {
    reader: BitSource<'a>,
    // The current raw code bits being buffered,
    // which is always in the range [low, high]
    code: u64,
    low: u64,
    high: u64,
    state_mask: u64,
    full_range: u64,
    half_range: u64,
    quarter_range: u64,
    minimum_range: u64,
    maximum_total: u64,
}

impl<'a> CoderHooks for ArithmeticDecoder<'a> {
    type Hook = DecoderHook;

    /// The window loses its top bit and takes in the next input bit.
    open spec fn shifted(low: int, h: DecoderHook) -> DecoderHook {
        DecoderHook {
            code: 2 * (h.code - top_of(h.code)) + bit_value(next_bit(h.rest)),
            rest: after_bit(h.rest),
        }
    }

    /// The window loses its second-highest bit and takes in the next input bit.
    open spec fn underflowed(h: DecoderHook) -> DecoderHook {
        DecoderHook {
            code: top_of(h.code) + 2 * (h.code % (QUARTER_RANGE as int)) + bit_value(
                next_bit(h.rest),
            ),
            rest: after_bit(h.rest),
        }
    }

    open spec fn fallible() -> bool {
        false
    }
}

/// While the code lies in the interval, shifting keeps it there.
pub proof fn lemma_shift_keeps_code(c: Coding<DecoderHook>)
    requires
        0 <= c.low <= c.hook.code <= c.high < FULL_RANGE,
    ensures
        ({
            let d = shift_phase::<ArithmeticDecoder>(c);
            &&& 0 <= d.low <= d.hook.code <= d.high < FULL_RANGE
            &&& !top_bits_agree(d.low, d.high)
        }),
    decreases FULL_RANGE - (c.high - c.low + 1),
{
    if top_bits_agree(c.low, c.high) {
        let top = top_of(c.low);
        let next = Coding {
            low: 2 * (c.low - top),
            high: 2 * (c.high - top) + 1,
            hook: ArithmeticDecoder::shifted(c.low, c.hook),
        };
        lemma_shift_keeps_code(next);
    }
}

/// While the code lies in the interval, dropping the second-highest bit keeps it there.
pub proof fn lemma_underflow_keeps_code(c: Coding<DecoderHook>)
    requires
        0 <= c.low <= c.hook.code <= c.high < FULL_RANGE,
        c.low < HALF_RANGE <= c.high,
    ensures
        ({
            let d = underflow_phase::<ArithmeticDecoder>(c);
            &&& 0 <= d.low <= d.hook.code <= d.high < FULL_RANGE
            &&& interval_ok(d.low, d.high)
        }),
    decreases FULL_RANGE - (c.high - c.low + 1),
{
    if straddles(c.low, c.high) {
        let next = Coding {
            low: 2 * c.low - HALF_RANGE,
            high: 2 * c.high - HALF_RANGE + 1,
            hook: ArithmeticDecoder::underflowed(c.hook),
        };
        lemma_underflow_keeps_code(next);
    }
}

impl<'a> ArithmeticDecoder<'a> {
    /// A decoder at the start of `data`, its window filled with the first bits.
    ///
    /// Input shorter than the window is read as if zero bits followed it.
    pub fn new(data: &'a [u8], num_bits: usize) -> (r: Result<Self, CodingError>)
        requires
            num_bits == NUM_STATE_BITS,
        ensures
            r matches Ok(d) && {
                &&& d.wf()
                &&& d.spec_low() == 0
                &&& d.spec_high() == STATE_MASK
                &&& d.hook() == primed(bytes_to_bits(data@), 32)
                &&& 0 <= d.hook().code <= STATE_MASK
            },
    {
        proof {
            assert(1u64 << 32 == 0x1_0000_0000u64) by (bit_vector);
            assert(0x1_0000_0000u64 >> 1 == 0x8000_0000u64) by (bit_vector);
            assert(0x8000_0000u64 >> 1 == 0x4000_0000u64) by (bit_vector);
        }
        let full_range: u64 = 1u64 << 32;
        // The top bit at width num_state_bits.
        let half_range: u64 = full_range >> 1;
        // The second highest bit at width num_state_bits.
        let quarter_range: u64 = half_range >> 1;
        // Minimum range (high+1-low) during coding.
        let minimum_range: u64 = quarter_range + 2;
        // Maximum allowed total from a frequency table at all times during coding.
        let maximum_total: u64 = minimum_range;
        // Bit mask of num_state_bits ones.
        let state_mask: u64 = full_range - 1;
        let mut d = ArithmeticDecoder {
            reader: source_new(data),
            low: 0,
            high: state_mask,
            state_mask,
            full_range,
            half_range,
            quarter_range,
            minimum_range,
            maximum_total,
            code: 0,
        };
        let ghost input = bytes_to_bits(data@);
        let mut i: usize = 0;
        proof {
            lemma2_to64();
        }
        while i < num_bits
            invariant
                num_bits == 32,
                i <= num_bits,
                d.wf(),
                d.low == 0,
                d.high == STATE_MASK,
                d.hook() == primed(input, i as nat),
                d.code < pow2(i as nat),
            decreases num_bits - i,
        {
            let bit: u64 = d.next_input_bit();
            proof {
                let code = d.code;
                lemma2_to64();
                lemma_pow2_unfold((i + 1) as nat);
                if i + 1 < 32 {
                    lemma_pow2_strictly_increases((i + 1) as nat, 32);
                }
                assert(code << 1 | bit == 2 * code + bit) by (bit_vector)
                    requires
                        code < 0x1_0000_0000,
                        bit <= 1,
                ;
            }
            d.code = d.code << 1 | bit;
            i = i + 1;
        }
        Ok(d)
    }

    /// Reads one input bit as a number; past the end of the input every bit is clear.
    fn next_input_bit(&mut self) -> (bit: u64)
        ensures
            bit == bit_value(next_bit(source_bits(old(self).reader))),
            source_bits(final(self).reader) == after_bit(source_bits(old(self).reader)),
            final(self).code == old(self).code,
            final(self).low == old(self).low,
            final(self).high == old(self).high,
            final(self).state_mask == old(self).state_mask,
            final(self).full_range == old(self).full_range,
            final(self).half_range == old(self).half_range,
            final(self).quarter_range == old(self).quarter_range,
            final(self).minimum_range == old(self).minimum_range,
            final(self).maximum_total == old(self).maximum_total,
    {
        match source_next(&mut self.reader) {
            Ok(true) => 1,
            _ => 0,
        }
    }

    /// The window of input bits that is compared against the interval.
    pub fn code(&self) -> (r: u64)
        requires
            self.wf(),
        ensures
            r == self.hook().code,
            r <= STATE_MASK,
    {
        self.code
    }

    /// Interval and hook together.
    pub open spec fn coding(&self) -> Coding<DecoderHook> {
        Coding { low: self.spec_low() as int, high: self.spec_high() as int, hook: self.hook() }
    }

    /// The interval is in its between-symbols shape and contains the code window.
    pub open spec fn tracking(&self) -> bool {
        &&& interval_ok(self.spec_low() as int, self.spec_high() as int)
        &&& self.spec_low() <= self.hook().code <= self.spec_high()
    }

    /// Reads the next symbol against `freqtable`.
    ///
    /// The symbol is the one whose slot contains the scaled position of the code
    /// window; afterwards the window again lies inside the interval.
    pub fn read<T: FrequencyTable>(&mut self, freqtable: &T) -> (r: Result<Symbol, CodingError>)
        requires
            old(self).wf(),
            width_ok(old(self).spec_low() as int, old(self).spec_high() as int),
            old(self).spec_low() <= old(self).hook().code <= old(self).spec_high(),
            freqtable.wf(),
            1 <= sum(freqtable.freqs()) <= MAXIMUM_TOTAL,
        ensures
            r matches Ok(symbol) && {
                &&& final(self).wf()
                &&& symbol < freqtable.freqs().len()
                &&& freqtable.freqs()[symbol as int] > 0
                &&& symbol == decoded_symbol(
                    freqtable.freqs(),
                    old(self).spec_low() as int,
                    old(self).spec_high() as int,
                    old(self).hook().code,
                )
                &&& final(self).coding() == coded::<Self>(
                    old(self).coding(),
                    slot_of(freqtable.freqs(), symbol as int),
                )
                &&& final(self).tracking()
            },
    {
        let total: u64 = freqtable.total() as u64;
        let range: u64 = self.high - self.low + 1;
        let offset: u64 = self.code - self.low;
        let ghost f = freqtable.freqs();
        proof {
            assert((offset + 1) * total <= 0x1_0000_0000 * 0x4000_0002 && (offset + 1) * total >= 1)
                by (nonlinear_arith)
                requires
                    offset + 1 <= 0x1_0000_0000,
                    1 <= total <= 0x4000_0002,
            ;
        }
        let value: u64 = ((offset + 1) * total - 1) / range;
        proof {
            assert(0 <= value < total) by (nonlinear_arith)
                requires
                    value as int == ((offset + 1) * total - 1) / (range as int),
                    0 <= offset < range,
                    total >= 1,
            ;
            assert(f.len() > 0) by {
                if f.len() == 0 {
                    assert(sum(f) == 0);
                }
            }
        }

        // A kind of binary search. Find highest symbol such that freqs.get_low(symbol) <= value.
        let mut start: u16 = 0;
        let mut end: u16 = freqtable.get_symbol_limit();
        while end - start > 1
            invariant
                freqtable.wf(),
                f == freqtable.freqs(),
                0 <= start < end <= f.len(),
                cumulative(f, start as int) <= value,
                value < cumulative(f, end as int),
            decreases end - start,
        {
            let middle: u16 = start + (end - start) / 2;
            if freqtable.get_low(middle) as u64 > value {
                end = middle;
            } else {
                start = middle;
            }
        }

        let symbol: Symbol = start;
        proof {
            let slot = slot_of(f, symbol as int);
            lemma_symbol_below(f, value as int, f.len() as int, symbol as int);
            assert(f[symbol as int] > 0);
            lemma_slot_ok(f, symbol as int);
            lemma_value_in_slot(self.low as int, self.high as int, self.code as int, slot);
            lemma_narrow_bounds(self.low as int, self.high as int, slot);
            let narrowed = narrow::<Self>(self.coding(), slot);
            lemma_shift_keeps_code(narrowed);
            lemma_underflow_keeps_code(shift_phase::<Self>(narrowed));
        }
        match self.update(freqtable, symbol) {
            Ok(()) => Ok(symbol),
            Err(e) => Err(e),
        }
    }
}

impl<'a> ArithmeticCoderBase for ArithmeticDecoder<'a> {
    closed spec fn wf(&self) -> bool {
        &&& self.state_mask == STATE_MASK
        &&& self.full_range == FULL_RANGE
        &&& self.half_range == HALF_RANGE
        &&& self.quarter_range == QUARTER_RANGE
        &&& self.minimum_range == MINIMUM_RANGE
        &&& self.maximum_total == MAXIMUM_TOTAL
        &&& self.low <= STATE_MASK
        &&& self.high <= STATE_MASK
        &&& self.code <= STATE_MASK
    }

    closed spec fn spec_low(&self) -> u64 {
        self.low
    }

    closed spec fn spec_high(&self) -> u64 {
        self.high
    }

    closed spec fn hook(&self) -> DecoderHook {
        DecoderHook { code: self.code as int, rest: source_bits(self.reader) }
    }

    closed spec fn budget(&self) -> int {
        32
    }

    fn set_low(&mut self, value: u64) {
        self.low = value
    }

    fn set_high(&mut self, value: u64) {
        self.high = value
    }

    fn low(&self) -> (r: u64) {
        self.low
    }

    fn high(&self) -> (r: u64) {
        self.high
    }

    fn state_mask(&self) -> (r: u64) {
        self.state_mask
    }

    fn minimum_range(&self) -> (r: u64) {
        self.minimum_range
    }

    fn quarter_range(&self) -> (r: u64) {
        self.quarter_range
    }

    fn half_range(&self) -> (r: u64) {
        self.half_range
    }

    fn full_range(&self) -> (r: u64) {
        self.full_range
    }

    fn maximum_total(&self) -> (r: u64) {
        self.maximum_total
    }

    fn shift(&mut self) -> (r: Result<(), CodingError>) {
        let bit: u64 = self.next_input_bit();
        proof {
            let code = self.code;
            assert((((code << 1) & 0xFFFF_FFFF) | bit) == (if code < 0x8000_0000 {
                code * 2 + bit
            } else {
                (code - 0x8000_0000) * 2 + bit
            })) by (bit_vector)
                requires
                    code <= 0xFFFF_FFFF,
                    bit <= 1,
            ;
        }
        self.code = ((self.code << 1) & self.state_mask) | bit;
        Ok(())
    }

    fn underflow(&mut self) {
        let bit: u64 = self.next_input_bit();
        proof {
            let code = self.code;
            assert(((code & 0x8000_0000) | ((code << 1) & (0xFFFF_FFFFu64 >> 1)) | bit) == (
            if code < 0x8000_0000 {
                0
            } else {
                0x8000_0000u64
            }) + 2 * (code % 0x4000_0000) + bit) by (bit_vector)
                requires
                    code <= 0xFFFF_FFFF,
                    bit <= 1,
            ;
            assert(((code & 0x8000_0000) | ((code << 1) & (0xFFFF_FFFFu64 >> 1)) | bit)
                <= 0xFFFF_FFFF) by (bit_vector)
                requires
                    code <= 0xFFFF_FFFF,
                    bit <= 1,
            ;
        }
        self.code = (self.code & self.half_range) | ((self.code << 1) & (self.state_mask >> 1))
            | bit;
    }
}

} // verus!
