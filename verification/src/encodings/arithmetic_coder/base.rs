use vstd::prelude::*;
use vstd::arithmetic::power2::{pow2, lemma2_to64};
use super::{cumulative, sum, FrequencyTable, Symbol};
use crate::error::CodingError;

verus! {

/// Width of the coder's registers in bits.
pub const NUM_STATE_BITS: usize = 32;

/// One more than the largest register value.
pub const FULL_RANGE: u64 = 0x1_0000_0000;

/// The top bit of a register.
pub const HALF_RANGE: u64 = 0x8000_0000;

/// The second-highest bit of a register.
pub const QUARTER_RANGE: u64 = 0x4000_0000;

/// The smallest width the interval has between two symbols.
pub const MINIMUM_RANGE: u64 = 0x4000_0002;

/// The largest frequency total the coder accepts.
pub const MAXIMUM_TOTAL: u64 = 0x4000_0002;

/// All register bits set.
pub const STATE_MASK: u64 = 0xFFFF_FFFF;

/// The interval between two symbols: it contains the midpoint and is wider than a quarter.
pub open spec fn interval_ok(low: int, high: int) -> bool {
    &&& 0 <= low < HALF_RANGE <= high < FULL_RANGE
    &&& !(low >= QUARTER_RANGE && high < 3 * QUARTER_RANGE)
}

/// An interval within the registers that is wide enough to be narrowed to
/// any slot: at least `MINIMUM_RANGE` and so at most `FULL_RANGE` wide.
pub open spec fn width_ok(low: int, high: int) -> bool {
    &&& 0 <= low <= high <= STATE_MASK
    &&& MINIMUM_RANGE <= high - low + 1 <= FULL_RANGE
}

/// Between two symbols the interval is at least `MINIMUM_RANGE` and at most
/// `FULL_RANGE` wide.
pub proof fn lemma_interval_width(low: int, high: int)
    requires
        interval_ok(low, high),
    ensures
        width_ok(low, high),
        MINIMUM_RANGE <= high - low + 1 <= FULL_RANGE,
{
}

/// Lower end of the sub-interval of `[low, high]` that belongs to cumulative frequency `symlow`.
pub open spec fn narrow_low(low: int, high: int, symlow: int, total: int) -> int {
    low + symlow * (high - low + 1) / total
}

/// Upper end of the sub-interval of `[low, high]` that ends at cumulative frequency `symhigh`.
pub open spec fn narrow_high(low: int, high: int, symhigh: int, total: int) -> int {
    low + symhigh * (high - low + 1) / total - 1
}

/// The three numbers of a table that coding one symbol depends on.
pub struct Slot {
    pub symlow: int,
    pub symhigh: int,
    pub total: int,
}

/// The slot of `symbol` in a table with frequencies `f`.
pub open spec fn slot_of(f: Seq<usize>, symbol: int) -> Slot {
    Slot { symlow: cumulative(f, symbol), symhigh: cumulative(f, symbol + 1), total: sum(f) }
}

/// A slot the coder can work with: non-empty and within the accepted total.
pub open spec fn slot_ok(s: Slot) -> bool {
    0 <= s.symlow < s.symhigh <= s.total <= MAXIMUM_TOTAL
}

/// The slot of a symbol with non-zero frequency is usable whenever the total is accepted.
pub proof fn lemma_slot_ok(f: Seq<usize>, symbol: int)
    requires
        0 <= symbol < f.len(),
        f[symbol] > 0,
        sum(f) <= MAXIMUM_TOTAL,
    ensures
        slot_ok(slot_of(f, symbol)),
{
    super::lemma_cumulative_monotone(f, 0, symbol);
    super::lemma_cumulative_monotone(f, symbol + 1, f.len() as int);
}

/// Narrowing stays inside the interval and leaves at least one value.
pub proof fn lemma_narrow_bounds(low: int, high: int, s: Slot)
    requires
        0 <= low <= high < FULL_RANGE,
        high - low + 1 >= s.total,
        slot_ok(s),
    ensures
        low <= narrow_low(low, high, s.symlow, s.total) <= narrow_high(
            low,
            high,
            s.symhigh,
            s.total,
        ) <= high,
{
    let range = high - low + 1;
    let a = s.symlow * range;
    let b = s.symhigh * range;
    let t = s.total;
    assert(a >= 0 && b >= a + t && b <= t * range) by (nonlinear_arith)
        requires
            a == s.symlow * range,
            b == s.symhigh * range,
            0 <= s.symlow < s.symhigh <= s.total,
            t == s.total,
            range >= t,
    ;
    assert(a / t >= 0 && b / t >= a / t + 1 && b / t <= range) by (nonlinear_arith)
        requires
            a >= 0,
            b >= a + t,
            b <= t * range,
            t > 0,
    ;
}

/// What distinguishes the two halves of the range coder, as mathematics.
///
/// Both halves narrow and renormalise the interval in the same way; they differ in
/// what happens to the rest of their state (the `Hook`) whenever a bit leaves the
/// registers or is deferred.
pub trait CoderHooks {
    /// The part of the state that `shift` and `underflow` act on.
    type Hook;

    /// What `shift` does to the hook when the lower end is `low`.
    spec fn shifted(low: int, h: Self::Hook) -> Self::Hook;

    /// What `underflow` does to the hook.
    spec fn underflowed(h: Self::Hook) -> Self::Hook;

    /// Whether `shift` can fail at all.
    spec fn fallible() -> bool;
}

/// The state and the interval update shared by both halves of the range coder.
pub trait ArithmeticCoderBase: CoderHooks + Sized {
    /// Internal consistency of the coder, apart from the position of the interval.
    spec fn wf(&self) -> bool;

    spec fn spec_low(&self) -> u64;

    spec fn spec_high(&self) -> u64;

    spec fn hook(&self) -> Self::Hook;

    /// How many more deferred bits the coder can keep track of.
    spec fn budget(&self) -> int;

    fn set_low(&mut self, value: u64)
        requires
            old(self).wf(),
            value <= STATE_MASK,
        ensures
            final(self).wf(),
            final(self).spec_low() == value,
            final(self).spec_high() == old(self).spec_high(),
            final(self).hook() == old(self).hook(),
            final(self).budget() == old(self).budget();

    fn set_high(&mut self, value: u64)
        requires
            old(self).wf(),
            value <= STATE_MASK,
        ensures
            final(self).wf(),
            final(self).spec_high() == value,
            final(self).spec_low() == old(self).spec_low(),
            final(self).hook() == old(self).hook(),
            final(self).budget() == old(self).budget();

    fn low(&self) -> (r: u64)
        requires
            self.wf(),
        ensures
            r == self.spec_low(),
            r <= STATE_MASK;

    fn high(&self) -> (r: u64)
        requires
            self.wf(),
        ensures
            r == self.spec_high(),
            r <= STATE_MASK;

    fn state_mask(&self) -> (r: u64)
        requires
            self.wf(),
        ensures
            r == STATE_MASK;

    fn minimum_range(&self) -> (r: u64)
        requires
            self.wf(),
        ensures
            r == MINIMUM_RANGE;

    fn quarter_range(&self) -> (r: u64)
        requires
            self.wf(),
        ensures
            r == QUARTER_RANGE;

    fn half_range(&self) -> (r: u64)
        requires
            self.wf(),
        ensures
            r == HALF_RANGE;

    fn full_range(&self) -> (r: u64)
        requires
            self.wf(),
        ensures
            r == FULL_RANGE;

    fn maximum_total(&self) -> (r: u64)
        requires
            self.wf(),
        ensures
            r == MAXIMUM_TOTAL;

    /// Called when the top bit of both ends agrees and leaves the registers.
    fn shift(&mut self) -> (r: Result<(), CodingError>)
        requires
            old(self).wf(),
        ensures
            r is Ok ==> {
                &&& final(self).wf()
                &&& final(self).spec_low() == old(self).spec_low()
                &&& final(self).spec_high() == old(self).spec_high()
                &&& final(self).hook() == Self::shifted(
                    old(self).spec_low() as int,
                    old(self).hook(),
                )
                &&& final(self).budget() >= old(self).budget()
            },
            r matches Err(e) ==> {
                &&& Self::fallible()
                &&& e == CodingError::Io
                &&& final(self).wf()
                &&& final(self).spec_low() == old(self).spec_low()
                &&& final(self).spec_high() == old(self).spec_high()
                &&& final(self).budget() >= old(self).budget()
            };

    /// Called when the interval straddles the midpoint and its second-highest bit is dropped.
    fn underflow(&mut self)
        requires
            old(self).wf(),
            old(self).budget() > 0,
        ensures
            final(self).wf(),
            final(self).spec_low() == old(self).spec_low(),
            final(self).spec_high() == old(self).spec_high(),
            final(self).hook() == Self::underflowed(old(self).hook()),
            final(self).budget() >= old(self).budget() - 1;

    /// Narrows the interval to the slot of `symbol` in `freqtable` and renormalises it.
    ///
    /// Afterwards the interval is again at least `MINIMUM_RANGE` and at most
    /// `FULL_RANGE` wide. The call fails only where a `shift` fails; then no
    /// bit was deferred since and the upper end is not stored.
    fn update<T: FrequencyTable>(&mut self, freqtable: &T, symbol: Symbol) -> (r: Result<
        (),
        CodingError,
    >)
        requires
            old(self).wf(),
            width_ok(old(self).spec_low() as int, old(self).spec_high() as int),
            old(self).budget() >= 32,
            freqtable.wf(),
            symbol < freqtable.freqs().len(),
            freqtable.freqs()[symbol as int] > 0,
            sum(freqtable.freqs()) <= MAXIMUM_TOTAL,
        ensures
            !Self::fallible() ==> r is Ok,
            r is Ok ==> {
                &&& final(self).wf()
                &&& Coding {
                    low: final(self).spec_low() as int,
                    high: final(self).spec_high() as int,
                    hook: final(self).hook(),
                } == coded::<Self>(
                    Coding {
                        low: old(self).spec_low() as int,
                        high: old(self).spec_high() as int,
                        hook: old(self).hook(),
                    },
                    slot_of(freqtable.freqs(), symbol as int),
                )
                &&& interval_ok(final(self).spec_low() as int, final(self).spec_high() as int)
                &&& MINIMUM_RANGE <= final(self).spec_high() - final(self).spec_low() + 1
                    <= FULL_RANGE
                &&& final(self).budget() >= old(self).budget() - 32
            },
            r matches Err(e) ==> {
                &&& Self::fallible()
                &&& e == CodingError::Io
                &&& final(self).wf()
                &&& final(self).spec_high() == old(self).spec_high()
                &&& final(self).budget() >= old(self).budget()
            },
    {
        let low0: u64 = self.low();
        let high0: u64 = self.high();
        let range: u64 = high0 - low0 + 1;
        let symlow: u64 = freqtable.get_low(symbol) as u64;
        let symhigh: u64 = freqtable.get_high(symbol) as u64;
        let total: u64 = freqtable.total() as u64;
        let ghost slot = slot_of(freqtable.freqs(), symbol as int);
        let ghost start = Coding {
            low: low0 as int,
            high: high0 as int,
            hook: self.hook(),
        };
        proof {
            lemma_slot_ok(freqtable.freqs(), symbol as int);
            lemma_narrow_bounds(low0 as int, high0 as int, slot);
            assert(symlow * range <= 0x4000_0002 * 0x1_0000_0000 && symhigh * range <= 0x4000_0002
                * 0x1_0000_0000) by (nonlinear_arith)
                requires
                    symlow <= 0x4000_0002,
                    symhigh <= 0x4000_0002,
                    range <= 0x1_0000_0000,
            ;
        }
        let mut low: u64 = low0 + symlow * range / total;
        let mut high: u64 = low0 + symhigh * range / total - 1;
        let ghost narrowed = Coding { low: low as int, high: high as int, hook: self.hook() };
        assert(narrowed == narrow::<Self>(start, slot));

        // While both ends agree on the top bit, that bit is settled: shift it out.
        let half_range: u64 = self.half_range();
        let state_mask: u64 = self.state_mask();
        while ((low ^ high) & half_range) == 0
            invariant
                self.wf(),
                half_range == HALF_RANGE,
                state_mask == STATE_MASK,
                0 <= low <= high < FULL_RANGE,
                self.budget() >= old(self).budget(),
                self.spec_high() == old(self).spec_high(),
                shift_phase::<Self>(
                    Coding { low: low as int, high: high as int, hook: self.hook() },
                ) == shift_phase::<Self>(narrowed),
            decreases FULL_RANGE - (high - low + 1),
        {
            proof {
                lemma_shift_bits(low, high);
            }
            self.set_low(low);
            self.shift()?;
            low = (low << 1) & state_mask;
            high = ((high << 1) & state_mask) | 1;
        }
        proof {
            lemma_shift_bits(low, high);
        }
        let ghost shifted = Coding { low: low as int, high: high as int, hook: self.hook() };
        assert(shifted == shift_phase::<Self>(narrowed));

        // While the interval straddles the midpoint within the middle half, widen it there.
        let quarter_range: u64 = self.quarter_range();
        let ghost mut steps: nat = 0;
        proof {
            lemma2_to64();
        }
        while (low & !high & quarter_range) != 0
            invariant
                self.wf(),
                half_range == HALF_RANGE,
                quarter_range == QUARTER_RANGE,
                0 <= low < HALF_RANGE <= high < FULL_RANGE,
                steps <= 32,
                old(self).budget() >= 32,
                pow2(steps) <= high - low + 1,
                self.budget() >= old(self).budget() - steps,
                underflow_phase::<Self>(
                    Coding { low: low as int, high: high as int, hook: self.hook() },
                ) == underflow_phase::<Self>(shifted),
            decreases FULL_RANGE - (high - low + 1),
        {
            proof {
                lemma_underflow_bits(low, high);
                lemma2_to64();
                vstd::arithmetic::power2::lemma_pow2_unfold(steps + 1);
            }
            self.underflow();
            low = (low << 1) ^ half_range;
            high = ((high ^ half_range) << 1) | half_range | 1;
            proof {
                steps = steps + 1;
            }
        }
        proof {
            lemma_underflow_bits(low, high);
        }
        self.set_low(low);
        self.set_high(high);
        Ok(())
    }
}

/// Interval and hook of a coder, as mathematical values.
pub struct Coding<H> {
    pub low: int,
    pub high: int,
    pub hook: H,
}

/// The state after narrowing to a slot, before renormalisation.
pub open spec fn narrow<C: CoderHooks>(c: Coding<C::Hook>, s: Slot) -> Coding<C::Hook> {
    Coding {
        low: narrow_low(c.low, c.high, s.symlow, s.total),
        high: narrow_high(c.low, c.high, s.symhigh, s.total),
        hook: c.hook,
    }
}

/// Whether both ends have the same top bit.
pub open spec fn top_bits_agree(low: int, high: int) -> bool {
    0 <= low <= high < FULL_RANGE && ((low < HALF_RANGE) == (high < HALF_RANGE))
}

/// Whether the interval straddles the midpoint inside the middle half.
pub open spec fn straddles(low: int, high: int) -> bool {
    QUARTER_RANGE <= low < HALF_RANGE <= high < 3 * QUARTER_RANGE
}

/// Shifts out the top bit for as long as both ends agree on it.
pub open spec fn shift_phase<C: CoderHooks>(c: Coding<C::Hook>) -> Coding<C::Hook>
    decreases FULL_RANGE - (c.high - c.low + 1),
{
    if top_bits_agree(c.low, c.high) {
        let top: int = if c.low < HALF_RANGE {
            0
        } else {
            HALF_RANGE as int
        };
        shift_phase::<C>(
            Coding {
                low: 2 * (c.low - top),
                high: 2 * (c.high - top) + 1,
                hook: C::shifted(c.low, c.hook),
            },
        )
    } else {
        c
    }
}

/// Drops the second-highest bit for as long as the interval straddles the midpoint.
pub open spec fn underflow_phase<C: CoderHooks>(c: Coding<C::Hook>) -> Coding<C::Hook>
    decreases FULL_RANGE - (c.high - c.low + 1),
{
    if straddles(c.low, c.high) {
        underflow_phase::<C>(
            Coding {
                low: 2 * c.low - HALF_RANGE,
                high: 2 * c.high - HALF_RANGE + 1,
                hook: C::underflowed(c.hook),
            },
        )
    } else {
        c
    }
}

/// The state after coding one symbol with slot `s`: narrow, then renormalise.
pub open spec fn coded<C: CoderHooks>(c: Coding<C::Hook>, s: Slot) -> Coding<C::Hook> {
    underflow_phase::<C>(shift_phase::<C>(narrow::<C>(c, s)))
}

/// The register operations of the shift step, in arithmetic.
pub proof fn lemma_shift_bits(low: u64, high: u64)
    requires
        low <= high < FULL_RANGE,
    ensures
        (((low ^ high) & HALF_RANGE) == 0) == top_bits_agree(low as int, high as int),
        ((low << 1) & STATE_MASK) == 2 * (low - (if low < HALF_RANGE {
            0
        } else {
            HALF_RANGE as int
        })),
        (((high << 1) & STATE_MASK) | 1) == 2 * (high - (if high < HALF_RANGE {
            0
        } else {
            HALF_RANGE as int
        })) + 1,
{
    assert((((low ^ high) & 0x8000_0000) == 0) == ((low < 0x8000_0000) == (high < 0x8000_0000)))
        by (bit_vector)
        requires
            low < 0x1_0000_0000,
            high < 0x1_0000_0000,
    ;
    assert(((low << 1) & 0xFFFF_FFFF) == (if low < 0x8000_0000 {
        low * 2
    } else {
        (low - 0x8000_0000) * 2
    })) by (bit_vector)
        requires
            low < 0x1_0000_0000,
    ;
    assert((((high << 1) & 0xFFFF_FFFF) | 1) == (if high < 0x8000_0000 {
        high * 2 + 1
    } else {
        (high - 0x8000_0000) * 2 + 1
    })) by (bit_vector)
        requires
            high < 0x1_0000_0000,
    ;
}

/// The register operations of the underflow step, in arithmetic.
pub proof fn lemma_underflow_bits(low: u64, high: u64)
    requires
        low < HALF_RANGE <= high < FULL_RANGE,
    ensures
        ((low & !high & QUARTER_RANGE) != 0) == straddles(low as int, high as int),
        straddles(low as int, high as int) ==> ((low << 1) ^ HALF_RANGE) == 2 * low - HALF_RANGE,
        straddles(low as int, high as int) ==> ((((high ^ HALF_RANGE) << 1) | HALF_RANGE) | 1) == 2
            * high - HALF_RANGE + 1,
{
    assert(((low & !high & 0x4000_0000) != 0) == (low >= 0x4000_0000 && high < 0xC000_0000))
        by (bit_vector)
        requires
            low < 0x8000_0000,
            0x8000_0000 <= high,
            high < 0x1_0000_0000,
    ;
    assert(0x4000_0000 <= low ==> ((low << 1) ^ 0x8000_0000) == 2 * low - 0x8000_0000)
        by (bit_vector)
        requires
            low < 0x8000_0000,
    ;
    assert(high < 0xC000_0000 ==> ((((high ^ 0x8000_0000) << 1) | 0x8000_0000) | 1) == 2 * high
        - 0x8000_0000 + 1) by (bit_vector)
        requires
            0x8000_0000 <= high,
    ;
}

/// The shift phase ends with the ends on both sides of the midpoint,
/// whatever the hooks are.
pub proof fn lemma_shift_phase_ends<C: CoderHooks>(c: Coding<C::Hook>)
    requires
        0 <= c.low <= c.high < FULL_RANGE,
    ensures
        0 <= shift_phase::<C>(c).low < HALF_RANGE <= shift_phase::<C>(c).high < FULL_RANGE,
    decreases FULL_RANGE - (c.high - c.low + 1),
{
    if top_bits_agree(c.low, c.high) {
        let top: int = if c.low < HALF_RANGE {
            0
        } else {
            HALF_RANGE as int
        };
        lemma_shift_phase_ends::<C>(
            Coding {
                low: 2 * (c.low - top),
                high: 2 * (c.high - top) + 1,
                hook: C::shifted(c.low, c.hook),
            },
        );
    }
}

/// The underflow phase ends with the interval in its between-symbols shape,
/// whatever the hooks are.
pub proof fn lemma_underflow_phase_ends<C: CoderHooks>(c: Coding<C::Hook>)
    requires
        0 <= c.low < HALF_RANGE <= c.high < FULL_RANGE,
    ensures
        interval_ok(underflow_phase::<C>(c).low, underflow_phase::<C>(c).high),
    decreases FULL_RANGE - (c.high - c.low + 1),
{
    if straddles(c.low, c.high) {
        lemma_underflow_phase_ends::<C>(
            Coding {
                low: 2 * c.low - HALF_RANGE,
                high: 2 * c.high - HALF_RANGE + 1,
                hook: C::underflowed(c.hook),
            },
        );
    }
}

/// After every coded symbol the interval is at least `MINIMUM_RANGE` and at
/// most `FULL_RANGE` wide: coding a usable slot from an interval of such a
/// width leaves one of such a width, for either half of the coder.
pub proof fn lemma_coded_width<C: CoderHooks>(c: Coding<C::Hook>, s: Slot)
    requires
        width_ok(c.low, c.high),
        slot_ok(s),
    ensures
        interval_ok(coded::<C>(c, s).low, coded::<C>(c, s).high),
        width_ok(coded::<C>(c, s).low, coded::<C>(c, s).high),
{
    lemma_narrow_bounds(c.low, c.high, s);
    let n = narrow::<C>(c, s);
    lemma_shift_phase_ends::<C>(n);
    lemma_underflow_phase_ends::<C>(shift_phase::<C>(n));
}

} // verus!
