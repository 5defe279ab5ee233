use std::collections::BTreeMap;
use vstd::prelude::*;
use vstd::laws_cmp::group_laws_cmp;
use vstd::std_specs::btree::group_btree_axioms;
use super::super::arithmetic_coder::{
    lemma_cumulative_update, sum, FrequencyTable, SimpleFrequencyTable, Symbol,
};

verus! {

broadcast use {group_laws_cmp, group_btree_axioms};

/// A node of the context tree: the symbols seen after one history, and the
/// contexts of the histories that are one symbol longer.
pub struct Context {
    pub frequencies: SimpleFrequencyTable,
    pub sub_ctxs: BTreeMap<Symbol, Context>,
}

/// The frequency tables of a context tree, by the path that leads to each.
pub type Tables = Map<Seq<Symbol>, Seq<usize>>;

/// The table of a context that has seen nothing: only the escape symbol counts.
pub open spec fn fresh_table(symbol_limit: Symbol, escape_symbol: Symbol) -> Seq<usize> {
    Seq::new(symbol_limit as nat, |i: int| 0usize).update(escape_symbol as int, 1usize)
}

/// `t` with one more occurrence of `symbol`.
pub open spec fn bumped(t: Seq<usize>, symbol: Symbol) -> Seq<usize> {
    t.update(symbol as int, (t[symbol as int] + 1) as usize)
}

/// Whether `p` is an initial part of `path` (all of it included).
pub open spec fn is_prefix(p: Seq<Symbol>, path: Seq<Symbol>) -> bool {
    p.len() <= path.len() && p == path.subrange(0, p.len() as int)
}

/// The table at `p`, or a fresh one where the tree has none yet.
pub open spec fn table_or_fresh(
    m: Tables,
    p: Seq<Symbol>,
    symbol_limit: Symbol,
    escape_symbol: Symbol,
) -> Seq<usize> {
    if m.contains_key(p) {
        m[p]
    } else {
        fresh_table(symbol_limit, escape_symbol)
    }
}

/// The tables after `symbol` was counted in the context at `path`: every context
/// on the way that was missing now exists, fresh, and the one at `path` has one
/// more `symbol`.
pub open spec fn populated(
    m: Tables,
    path: Seq<Symbol>,
    symbol: Symbol,
    symbol_limit: Symbol,
    escape_symbol: Symbol,
) -> Tables {
    Map::new(
        |p: Seq<Symbol>| m.contains_key(p) || is_prefix(p, path),
        |p: Seq<Symbol>|
            if p == path {
                bumped(table_or_fresh(m, p, symbol_limit, escape_symbol), symbol)
            } else {
                table_or_fresh(m, p, symbol_limit, escape_symbol)
            },
    )
}

/// A fresh table sums to one.
pub proof fn lemma_fresh_table(symbol_limit: Symbol, escape_symbol: Symbol)
    requires
        escape_symbol < symbol_limit,
    ensures
        fresh_table(symbol_limit, escape_symbol).len() == symbol_limit,
        fresh_table(symbol_limit, escape_symbol)[escape_symbol as int] == 1,
        sum(fresh_table(symbol_limit, escape_symbol)) == 1,
{
    let zeros = Seq::new(symbol_limit as nat, |i: int| 0usize);
    lemma_zeros_sum(symbol_limit as nat, symbol_limit as int);
    lemma_cumulative_update(zeros, escape_symbol as int, 1usize, symbol_limit as int);
}

/// A table of zeros sums to zero.
pub proof fn lemma_zeros_sum(len: nat, n: int)
    requires
        0 <= n <= len,
    ensures
        super::super::arithmetic_coder::cumulative(Seq::new(len, |i: int| 0usize), n) == 0,
    decreases n,
{
    if n > 0 {
        lemma_zeros_sum(len, n - 1);
    }
}

impl Context {
    /// A context without counts and without children.
    #[inline]
    pub fn new(num_symbols: Symbol) -> (c: Self)
        ensures
            c.frequencies.wf(),
            c.frequencies.freqs() == Seq::new(num_symbols as nat, |i: int| 0usize),
            c.sub_ctxs@ == Map::<Symbol, Context>::empty(),
    {
        Context { frequencies: SimpleFrequencyTable::new(num_symbols), sub_ctxs: BTreeMap::new() }
    }

    /// The context reached from this one along `path`, if every step of it exists.
    pub open spec fn descend(self, path: Seq<Symbol>) -> Option<Context>
        decreases path.len(),
    {
        if path.len() == 0 {
            Some(self)
        } else if self.sub_ctxs@.contains_key(path[0]) {
            self.sub_ctxs@[path[0]].descend(path.skip(1))
        } else {
            None
        }
    }

    /// The frequency tables below this context, each under the path that leads to it.
    pub open spec fn tables(self) -> Tables {
        Map::new(
            |p: Seq<Symbol>| self.descend(p) is Some,
            |p: Seq<Symbol>| self.descend(p).unwrap().frequencies.frequencies@,
        )
    }

    /// Every context below this one keeps its cached total in step, has a table
    /// of `symbol_limit` entries and counts the escape symbol at least once.
    pub open spec fn wf(self, symbol_limit: Symbol, escape_symbol: Symbol) -> bool {
        &&& escape_symbol < symbol_limit
        &&& forall|p: Seq<Symbol>| #[trigger]
            self.descend(p) is Some ==> {
                &&& self.descend(p).unwrap().frequencies.wf()
                &&& self.descend(p).unwrap().frequencies.frequencies@.len() == symbol_limit
                &&& self.descend(p).unwrap().frequencies.frequencies@[escape_symbol as int] >= 1
            }
    }

    /// A sub-context is well-formed when its parent is.
    pub proof fn lemma_child_wf(self, s: Symbol, symbol_limit: Symbol, escape_symbol: Symbol)
        requires
            self.wf(symbol_limit, escape_symbol),
            self.sub_ctxs@.contains_key(s),
        ensures
            self.sub_ctxs@[s].wf(symbol_limit, escape_symbol),
    {
        let child = self.sub_ctxs@[s];
        assert forall|p: Seq<Symbol>| #[trigger] child.descend(p) is Some implies {
            &&& child.descend(p).unwrap().frequencies.wf()
            &&& child.descend(p).unwrap().frequencies.frequencies@.len() == symbol_limit
            &&& child.descend(p).unwrap().frequencies.frequencies@[escape_symbol as int] >= 1
        } by {
            let q = seq![s] + p;
            assert(q.skip(1) =~= p);
            assert(self.descend(q) == child.descend(p));
        }
    }

    /// The sub-context for `symbol`, if there is one.
    pub fn child(&self, symbol: Symbol) -> (r: Option<&Context>)
        ensures
            match r {
                Some(c) => self.sub_ctxs@.contains_key(symbol) && *c == self.sub_ctxs@[symbol],
                None => !self.sub_ctxs@.contains_key(symbol),
            },
    {
        self.sub_ctxs.get(&symbol)
    }
}

} // verus!
