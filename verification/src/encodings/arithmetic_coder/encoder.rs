use vstd::prelude::*;
use super::base::{
    coded, interval_ok, slot_of, width_ok, ArithmeticCoderBase, CoderHooks, Coding, FULL_RANGE,
    HALF_RANGE, MAXIMUM_TOTAL, MINIMUM_RANGE, NUM_STATE_BITS, QUARTER_RANGE, STATE_MASK,
};
use super::{sum, FrequencyTable, Symbol};
use crate::bitio::{
    byte_bits, bytes_to_bits, pack_bits, sink_bits, sink_bytes, sink_new, sink_put, sink_put_byte,
    BitSink,
};
use crate::error::CodingError;

verus! {

/// What the encoder keeps besides the interval.
pub struct EncoderHook {
    /// Deferred bits: each will be written as the complement of the next settled bit.
    pub pending: nat,
    /// Every bit written so far.
    pub bits: Seq<bool>,
}

/// `n` copies of `b`.
pub open spec fn repeat(b: bool, n: nat) -> Seq<bool> {
    Seq::new(n, |i: int| b)
}

/// One coding step: `symbol` coded against a table with frequencies `table`.
pub struct Event {
    pub table: Seq<usize>,
    pub symbol: Symbol,
}

/// The encoder after the coding steps `events`, in order.
pub open spec fn encode_all(c: Coding<EncoderHook>, events: Seq<Event>) -> Coding<EncoderHook>
    decreases events.len(),
{
    if events.len() == 0 {
        c
    } else {
        encode_all(
            coded::<ArithmeticEncoder>(c, slot_of(events[0].table, events[0].symbol as int)),
            events.skip(1),
        )
    }
}

/// No coding steps leave the encoder as it is.
pub proof fn lemma_encode_all_empty(c: Coding<EncoderHook>)
    ensures
        encode_all(c, Seq::<Event>::empty()) == c,
{
}

/// The encoding half of the range coder, writing bits to a byte vector.
pub struct ArithmeticEncoder {
    writer: BitSink,
    num_underflow: u64,
    num_state_bits: usize,
    low: u64,
    high: u64,
    state_mask: u64,
    full_range: u64,
    half_range: u64,
    quarter_range: u64,
    minimum_range: u64,
    maximum_total: u64,
}

impl CoderHooks for ArithmeticEncoder {
    type Hook = EncoderHook;

    /// The settled top bit of `low` is written, then every deferred bit as its complement.
    open spec fn shifted(low: int, h: EncoderHook) -> EncoderHook {
        let bit = low >= HALF_RANGE;
        EncoderHook { pending: 0, bits: h.bits.push(bit) + repeat(!bit, h.pending) }
    }

    open spec fn underflowed(h: EncoderHook) -> EncoderHook {
        EncoderHook { pending: h.pending + 1, bits: h.bits }
    }

    /// The encoder writes to a byte vector, which takes every bit.
    open spec fn fallible() -> bool {
        false
    }
}

impl ArithmeticEncoder {
    /// A fresh encoder over the whole range that appends to `buffer`.
    pub fn new(buffer: Vec<u8>, num_bits: usize) -> (e: Self)
        requires
            num_bits == NUM_STATE_BITS,
        ensures
            e.wf(),
            e.spec_low() == 0,
            e.spec_high() == STATE_MASK,
            e.hook() == (EncoderHook { pending: 0, bits: bytes_to_bits(buffer@) }),
            e.budget() == u64::MAX,
    {
        let num_state_bits: usize = num_bits;
        proof {
            assert(1u64 << 32 == 0x1_0000_0000u64) by (bit_vector);
            assert(0x1_0000_0000u64 >> 1 == 0x8000_0000u64) by (bit_vector);
            assert(0x8000_0000u64 >> 1 == 0x4000_0000u64) by (bit_vector);
        }
        let full_range: u64 = 1u64 << 32;
        // The top bit at width num_state_bits.
        let half_range: u64 = full_range >> 1;
        // The second highest bit at width num_state_bits.
        let quarter_range: u64 = half_range >> 1;
        // Minimum range (high+1-low) during coding.
        let minimum_range: u64 = quarter_range + 2;
        // Maximum allowed total from a frequency table at all times during coding.
        let maximum_total: u64 = minimum_range;
        // Bit mask of num_state_bits ones.
        let state_mask: u64 = full_range - 1;
        ArithmeticEncoder {
            writer: sink_new(buffer),
            num_state_bits,
            num_underflow: 0,
            low: 0,
            high: state_mask,
            state_mask,
            full_range,
            half_range,
            quarter_range,
            minimum_range,
            maximum_total,
        }
    }

    /// Codes `symbol` against `freqtable`.
    #[inline]
    pub fn write<T: FrequencyTable>(&mut self, freqtable: &T, symbol: Symbol) -> (r: Result<
        (),
        CodingError,
    >)
        requires
            old(self).wf(),
            width_ok(old(self).spec_low() as int, old(self).spec_high() as int),
            old(self).budget() >= 32,
            freqtable.wf(),
            symbol < freqtable.freqs().len(),
            freqtable.freqs()[symbol as int] > 0,
            sum(freqtable.freqs()) <= MAXIMUM_TOTAL,
        ensures
            r is Ok && {
                &&& final(self).wf()
                &&& final(self).coding() == coded::<Self>(
                    old(self).coding(),
                    slot_of(freqtable.freqs(), symbol as int),
                )
                &&& interval_ok(final(self).spec_low() as int, final(self).spec_high() as int)
                &&& MINIMUM_RANGE <= final(self).spec_high() - final(self).spec_low() + 1
                    <= FULL_RANGE
                &&& final(self).budget() >= old(self).budget() - 32
            },
    {
        self.update(freqtable, symbol)
    }

    /// Terminates the stream: a single set bit, then a zero byte, so that every bit
    /// that matters ends up in a whole byte.
    ///
    /// This only writes to the underlying vector; it does not take it out.
    pub fn finish(&mut self) -> (r: Result<(), CodingError>)
        requires
            old(self).wf(),
        ensures
            r is Ok && {
                &&& final(self).wf()
                &&& final(self).spec_low() == old(self).spec_low()
                &&& final(self).spec_high() == old(self).spec_high()
                &&& final(self).budget() == old(self).budget()
                &&& final(self).hook() == (EncoderHook {
                    pending: old(self).hook().pending,
                    bits: old(self).hook().bits.push(true) + byte_bits(0),
                })
            },
    {
        match sink_put(&mut self.writer, true) {
            Ok(()) => {},
            Err(_) => {
                return Err(CodingError::Io);
            },
        }
        match sink_put_byte(&mut self.writer, 0) {
            Ok(()) => Ok(()),
            Err(_) => Err(CodingError::Io),
        }
    }

    /// The bytes written so far: every whole byte of the bit stream.
    #[inline]
    pub fn inner_ref(&mut self) -> (bytes: Vec<u8>)
        requires
            old(self).wf(),
        ensures
            final(self).wf(),
            final(self).coding() == old(self).coding(),
            final(self).budget() == old(self).budget(),
            bytes@ == pack_bits(old(self).hook().bits),
    {
        sink_bytes(&mut self.writer)
    }

    /// Interval and hook together.
    pub open spec fn coding(&self) -> Coding<EncoderHook> {
        Coding { low: self.spec_low() as int, high: self.spec_high() as int, hook: self.hook() }
    }
}

impl ArithmeticCoderBase for ArithmeticEncoder {
    closed spec fn wf(&self) -> bool {
        &&& self.num_state_bits == NUM_STATE_BITS
        &&& self.state_mask == STATE_MASK
        &&& self.full_range == FULL_RANGE
        &&& self.half_range == HALF_RANGE
        &&& self.quarter_range == QUARTER_RANGE
        &&& self.minimum_range == MINIMUM_RANGE
        &&& self.maximum_total == MAXIMUM_TOTAL
        &&& self.low <= STATE_MASK
        &&& self.high <= STATE_MASK
    }

    closed spec fn spec_low(&self) -> u64 {
        self.low
    }

    closed spec fn spec_high(&self) -> u64 {
        self.high
    }

    closed spec fn hook(&self) -> EncoderHook {
        EncoderHook { pending: self.num_underflow as nat, bits: sink_bits(self.writer) }
    }

    closed spec fn budget(&self) -> int {
        u64::MAX - self.num_underflow
    }

    fn set_low(&mut self, value: u64) {
        self.low = value
    }

    fn set_high(&mut self, value: u64) {
        self.high = value
    }

    #[inline]
    fn low(&self) -> (r: u64) {
        self.low
    }

    #[inline]
    fn high(&self) -> (r: u64) {
        self.high
    }

    #[inline]
    fn state_mask(&self) -> (r: u64) {
        self.state_mask
    }

    #[inline]
    fn minimum_range(&self) -> (r: u64) {
        self.minimum_range
    }

    #[inline]
    fn quarter_range(&self) -> (r: u64) {
        self.quarter_range
    }

    #[inline]
    fn half_range(&self) -> (r: u64) {
        self.half_range
    }

    #[inline]
    fn full_range(&self) -> (r: u64) {
        self.full_range
    }

    #[inline]
    fn maximum_total(&self) -> (r: u64) {
        self.maximum_total
    }

    fn shift(&mut self) -> (r: Result<(), CodingError>) {
        let bit: bool = (self.low >> 31) == 1;
        proof {
            let low = self.low;
            assert(((low >> 31) == 1) == (low >= 0x8000_0000)) by (bit_vector)
                requires
                    low <= 0xFFFF_FFFF,
            ;
        }
        match sink_put(&mut self.writer, bit) {
            Ok(()) => {},
            Err(_) => {
                return Err(CodingError::Io);
            },
        }

        // Write out the saved underflow bits
        let ghost settled = sink_bits(self.writer);
        let n: u64 = self.num_underflow;
        let mut i: u64 = 0;
        assert(sink_bits(self.writer) =~= settled + repeat(!bit, 0));
        while i < n
            invariant
                i <= n,
                n == old(self).num_underflow,
                self.wf(),
                self.low == old(self).low,
                self.high == old(self).high,
                settled == sink_bits(old(self).writer).push(bit),
                sink_bits(self.writer) == settled + repeat(!bit, i as nat),
            decreases n - i,
        {
            match sink_put(&mut self.writer, !bit) {
                Ok(()) => {},
                Err(_) => {
                    return Err(CodingError::Io);
                },
            }
            i = i + 1;
            assert(sink_bits(self.writer) =~= settled + repeat(!bit, i as nat));
        }
        self.num_underflow = 0;
        Ok(())
    }

    fn underflow(&mut self) {
        self.num_underflow = self.num_underflow + 1;
    }
}

} // verus!
