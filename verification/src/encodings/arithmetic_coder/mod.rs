use vstd::prelude::*;

pub mod base;
pub mod encoder;
pub mod decoder;
pub mod roundtrip;

verus! {

/// A symbol of the coder's alphabet.
pub type Symbol = u16;

/// Sum of the first `n` entries of `f` (all of them when `n` exceeds the length).
pub open spec fn cumulative(f: Seq<usize>, n: int) -> int
    decreases n,
{
    if n <= 0 {
        0
    } else if n > f.len() {
        cumulative(f, f.len() as int)
    } else {
        cumulative(f, n - 1) + f[n - 1]
    }
}

/// Sum of all entries of `f`.
pub open spec fn sum(f: Seq<usize>) -> int {
    cumulative(f, f.len() as int)
}

/// Cumulative sums never decrease.
pub proof fn lemma_cumulative_monotone(f: Seq<usize>, a: int, b: int)
    requires
        0 <= a <= b <= f.len(),
    ensures
        0 <= cumulative(f, a) <= cumulative(f, b),
    decreases b,
{
    if a < b {
        lemma_cumulative_monotone(f, a, b - 1);
    } else if a > 0 {
        lemma_cumulative_monotone(f, a - 1, a - 1);
    }
}

/// Changing one entry shifts every later cumulative sum by the difference.
pub proof fn lemma_cumulative_update(f: Seq<usize>, i: int, v: usize, n: int)
    requires
        0 <= i < f.len(),
        0 <= n <= f.len(),
    ensures
        cumulative(f.update(i, v), n) == cumulative(f, n) + (if i < n {
            v - f[i]
        } else {
            0
        }),
    decreases n,
{
    if n > 0 {
        lemma_cumulative_update(f, i, v, n - 1);
    }
}

/// Every entry is at most the sum.
pub proof fn lemma_entry_le_sum(f: Seq<usize>, i: int)
    requires
        0 <= i < f.len(),
    ensures
        f[i] <= sum(f),
{
    lemma_cumulative_monotone(f, 0, i);
    lemma_cumulative_monotone(f, i + 1, f.len() as int);
}

/// A table from which symbol frequencies and their running sums can be read.
pub trait FrequencyTable: Sized {
    /// The frequency of each symbol, by symbol value.
    spec fn freqs(&self) -> Seq<usize>;

    /// The table's internal consistency.
    spec fn wf(&self) -> bool;

    /// A table over `num_symbols` symbols; its contents depend on the variant.
    fn new(num_symbols: Symbol) -> (t: Self)
        ensures
            t.wf(),
            t.freqs().len() == num_symbols;

    /// The frequency of `symbol`.
    fn get(&self, symbol: Symbol) -> (r: usize)
        requires
            self.wf(),
            symbol < self.freqs().len(),
        ensures
            r == self.freqs()[symbol as int];

    /// The sum of the frequencies of all symbols strictly below `symbol`.
    fn get_low(&self, symbol: Symbol) -> (r: usize)
        requires
            self.wf(),
            symbol < self.freqs().len(),
        ensures
            r == cumulative(self.freqs(), symbol as int);

    /// The sum of the frequencies of all symbols up to and including `symbol`.
    fn get_high(&self, symbol: Symbol) -> (r: usize)
        requires
            self.wf(),
            symbol < self.freqs().len(),
        ensures
            r == cumulative(self.freqs(), symbol + 1);

    /// One more than the largest symbol the table knows.
    fn get_symbol_limit(&self) -> (r: Symbol)
        requires
            self.wf(),
        ensures
            r == self.freqs().len();

    /// The sum of all frequencies.
    fn total(&self) -> (r: usize)
        requires
            self.wf(),
        ensures
            r == sum(self.freqs());
}

/// A table of explicit, adjustable frequencies with a cached total.
#[derive(Debug)]
pub struct SimpleFrequencyTable {
    pub frequencies: Vec<usize>,
    pub total: usize,
}

impl SimpleFrequencyTable {
    /// The sum of the first `symbol` frequencies.
    pub fn cumulative(&self, symbol: Symbol) -> (r: usize)
        requires
            self.wf(),
        ensures
            r == cumulative(self.freqs(), symbol as int),
    {
        let n: usize = if (symbol as usize) < self.frequencies.len() {
            symbol as usize
        } else {
            self.frequencies.len()
        };
        let mut acc: usize = 0;
        let mut i: usize = 0;
        while i < n
            invariant
                self.wf(),
                i <= n <= self.frequencies.len(),
                acc == cumulative(self.frequencies@, i as int),
            decreases n - i,
        {
            proof {
                lemma_cumulative_monotone(self.frequencies@, i + 1, self.frequencies.len() as int);
            }
            acc = acc + self.frequencies[i];
            i = i + 1;
        }
        acc
    }

    /// Replaces the frequency of `symbol`, keeping the total in step.
    pub fn set(&mut self, symbol: Symbol, frequency: usize)
        requires
            old(self).wf(),
            symbol < old(self).freqs().len(),
            sum(old(self).freqs()) - old(self).freqs()[symbol as int] + frequency <= usize::MAX,
        ensures
            final(self).wf(),
            final(self).freqs() == old(self).freqs().update(symbol as int, frequency),
            sum(final(self).freqs()) == sum(old(self).freqs()) - old(self).freqs()[symbol as int]
                + frequency,
    {
        proof {
            lemma_entry_le_sum(self.frequencies@, symbol as int);
            lemma_cumulative_update(
                self.frequencies@,
                symbol as int,
                frequency,
                self.frequencies.len() as int,
            );
        }
        self.total = self.total - self.frequencies[symbol as usize];
        self.frequencies[symbol as usize] = frequency;
        self.total = self.total + frequency;
    }

    /// Counts one more occurrence of `symbol`.
    pub fn increment(&mut self, symbol: Symbol)
        requires
            old(self).wf(),
            symbol < old(self).freqs().len(),
            sum(old(self).freqs()) < usize::MAX,
        ensures
            final(self).wf(),
            final(self).freqs() == old(self).freqs().update(
                symbol as int,
                (old(self).freqs()[symbol as int] + 1) as usize,
            ),
            sum(final(self).freqs()) == sum(old(self).freqs()) + 1,
    {
        proof {
            lemma_entry_le_sum(self.frequencies@, symbol as int);
            lemma_cumulative_update(
                self.frequencies@,
                symbol as int,
                (self.frequencies@[symbol as int] + 1) as usize,
                self.frequencies.len() as int,
            );
        }
        self.total = self.total + 1;
        let f: usize = self.frequencies[symbol as usize];
        self.frequencies[symbol as usize] = f + 1;
    }
}

impl FrequencyTable for SimpleFrequencyTable {
    open spec fn freqs(&self) -> Seq<usize> {
        self.frequencies@
    }

    open spec fn wf(&self) -> bool {
        &&& self.frequencies@.len() <= u16::MAX
        &&& self.total == sum(self.frequencies@)
    }

    /// All frequencies start at zero.
    fn new(num_symbols: Symbol) -> (t: Self)
        ensures
            t.freqs() == Seq::new(num_symbols as nat, |i: int| 0usize),
    {
        let mut frequencies: Vec<usize> = Vec::new();
        let mut i: u16 = 0;
        while i < num_symbols
            invariant
                i <= num_symbols,
                frequencies@ == Seq::new(i as nat, |i: int| 0usize),
                sum(frequencies@) == 0,
            decreases num_symbols - i,
        {
            frequencies.push(0);
            i = i + 1;
            assert(frequencies@ =~= Seq::new(i as nat, |i: int| 0usize));
            assert(frequencies@.drop_last() =~= Seq::new((i - 1) as nat, |i: int| 0usize));
            assert(cumulative(frequencies@, i - 1) == cumulative(
                frequencies@.drop_last(),
                i - 1,
            )) by {
                lemma_cumulative_prefix(frequencies@, frequencies@.drop_last(), i - 1);
            }
        }
        SimpleFrequencyTable { frequencies, total: 0 }
    }

    fn get(&self, symbol: Symbol) -> (r: usize) {
        self.frequencies[symbol as usize]
    }

    fn get_low(&self, symbol: Symbol) -> (r: usize) {
        self.cumulative(symbol)
    }

    fn get_high(&self, symbol: Symbol) -> (r: usize) {
        self.cumulative(symbol + 1)
    }

    fn get_symbol_limit(&self) -> (r: Symbol) {
        self.frequencies.len() as Symbol
    }

    fn total(&self) -> (r: usize) {
        self.total
    }
}

/// Cumulative sums depend only on the entries they cover.
pub proof fn lemma_cumulative_prefix(f: Seq<usize>, g: Seq<usize>, n: int)
    requires
        0 <= n <= f.len(),
        n <= g.len(),
        forall|i: int| 0 <= i < n ==> f[i] == g[i],
    ensures
        cumulative(f, n) == cumulative(g, n),
    decreases n,
{
    if n > 0 {
        lemma_cumulative_prefix(f, g, n - 1);
    }
}

/// The table in which every symbol has frequency one.
pub struct FlatFrequencyTable {
    pub num_symbols: Symbol,
}

/// In a table of ones the running sum up to `n` is `n`.
pub proof fn lemma_flat_cumulative(len: nat, n: int)
    requires
        0 <= n <= len,
    ensures
        cumulative(Seq::new(len, |i: int| 1usize), n) == n,
    decreases n,
{
    if n > 0 {
        lemma_flat_cumulative(len, n - 1);
    }
}

impl FrequencyTable for FlatFrequencyTable {
    open spec fn freqs(&self) -> Seq<usize> {
        Seq::new(self.num_symbols as nat, |i: int| 1usize)
    }

    open spec fn wf(&self) -> bool {
        true
    }

    fn new(num_symbols: Symbol) -> (t: Self)
        ensures
            t.num_symbols == num_symbols,
    {
        FlatFrequencyTable { num_symbols }
    }

    fn get(&self, _symbol: Symbol) -> (r: usize) {
        1
    }

    fn get_low(&self, symbol: Symbol) -> (r: usize) {
        proof {
            lemma_flat_cumulative(self.num_symbols as nat, symbol as int);
        }
        symbol as usize
    }

    fn get_high(&self, symbol: Symbol) -> (r: usize) {
        proof {
            lemma_flat_cumulative(self.num_symbols as nat, symbol + 1);
        }
        symbol as usize + 1
    }

    fn get_symbol_limit(&self) -> (r: Symbol) {
        self.num_symbols
    }

    fn total(&self) -> (r: usize) {
        proof {
            lemma_flat_cumulative(self.num_symbols as nat, self.num_symbols as int);
        }
        self.num_symbols as usize
    }
}

} // verus!
