use vstd::prelude::*;
use vstd::laws_cmp::group_laws_cmp;
use vstd::slice::slice_subrange;
use vstd::std_specs::btree::group_btree_axioms;
use super::context::{
    bumped, fresh_table, is_prefix, lemma_fresh_table, populated, table_or_fresh, Context, Tables,
};
use super::super::arithmetic_coder::{
    lemma_cumulative_update, lemma_entry_le_sum, sum, FlatFrequencyTable, FrequencyTable, Symbol,
};

verus! {

broadcast use {group_laws_cmp, group_btree_axioms};

/// The last `n` symbols of `h`.
pub open spec fn suffix(h: Seq<Symbol>, n: int) -> Seq<Symbol> {
    h.subrange(h.len() - n, h.len() as int)
}

/// The tables after `symbol` was counted in the contexts of the suffixes of `h`
/// of length `0` to `upto`, shortest first.
pub open spec fn incremented_upto(
    m: Tables,
    h: Seq<Symbol>,
    symbol: Symbol,
    symbol_limit: Symbol,
    escape_symbol: Symbol,
    upto: int,
) -> Tables
    decreases upto + 1,
{
    if upto < 0 {
        m
    } else {
        populated(
            incremented_upto(m, h, symbol, symbol_limit, escape_symbol, upto - 1),
            suffix(h, upto),
            symbol,
            symbol_limit,
            escape_symbol,
        )
    }
}

/// The tables after `symbol` was seen with history `h`: it is counted once in
/// the context of every suffix of `h`.
pub open spec fn incremented(
    m: Tables,
    h: Seq<Symbol>,
    symbol: Symbol,
    symbol_limit: Symbol,
    escape_symbol: Symbol,
) -> Tables {
    incremented_upto(m, h, symbol, symbol_limit, escape_symbol, h.len() as int)
}

/// What holds of the tables of a model at every step: there is a root table,
/// every table has the model's size and counts the escape symbol at least once,
/// and no table has a larger sum than the root's.
pub open spec fn tables_ok(m: Tables, symbol_limit: Symbol, escape_symbol: Symbol) -> bool {
    &&& escape_symbol < symbol_limit
    &&& m.contains_key(Seq::<Symbol>::empty())
    &&& forall|p: Seq<Symbol>| #[trigger]
        m.contains_key(p) ==> {
            &&& m[p].len() == symbol_limit
            &&& m[p][escape_symbol as int] >= 1
            &&& 1 <= sum(m[p]) <= sum(m[Seq::<Symbol>::empty()])
        }
}

/// No context lies deeper than `order` symbols below the root.
pub open spec fn depth_ok(m: Tables, order: int) -> bool {
    forall|p: Seq<Symbol>| #[trigger] m.contains_key(p) ==> p.len() <= order
}

/// Counting a symbol along a path of at most `order` symbols creates no deeper context.
pub proof fn lemma_populated_depth(
    m: Tables,
    path: Seq<Symbol>,
    symbol: Symbol,
    symbol_limit: Symbol,
    escape_symbol: Symbol,
    order: int,
)
    requires
        depth_ok(m, order),
        path.len() <= order,
    ensures
        depth_ok(populated(m, path, symbol, symbol_limit, escape_symbol), order),
{
}

/// Counting a symbol for a history of at most `order` symbols creates no
/// context deeper than `order`.
pub proof fn lemma_incremented_depth(
    m: Tables,
    h: Seq<Symbol>,
    symbol: Symbol,
    symbol_limit: Symbol,
    escape_symbol: Symbol,
    upto: int,
    order: int,
)
    requires
        depth_ok(m, order),
        upto <= h.len() <= order,
    ensures
        depth_ok(incremented_upto(m, h, symbol, symbol_limit, escape_symbol, upto), order),
    decreases upto + 1,
{
    if upto >= 0 {
        lemma_incremented_depth(m, h, symbol, symbol_limit, escape_symbol, upto - 1, order);
        lemma_populated_depth(
            incremented_upto(m, h, symbol, symbol_limit, escape_symbol, upto - 1),
            suffix(h, upto),
            symbol,
            symbol_limit,
            escape_symbol,
            order,
        );
    }
}

/// The tables part-way through counting a symbol: contexts of paths shorter than
/// `done` may already hold one more than `base`, the others at most `base`.
pub open spec fn tables_mid(
    m: Tables,
    symbol_limit: Symbol,
    escape_symbol: Symbol,
    base: int,
    done: int,
) -> bool {
    &&& escape_symbol < symbol_limit
    &&& m.contains_key(Seq::<Symbol>::empty())
    &&& forall|p: Seq<Symbol>| #[trigger]
        m.contains_key(p) ==> {
            &&& m[p].len() == symbol_limit
            &&& m[p][escape_symbol as int] >= 1
            &&& 1 <= sum(m[p]) <= base + (if p.len() < done {
                1int
            } else {
                0int
            })
        }
}

/// Counting a symbol at the next longer suffix keeps the tables in shape.
pub proof fn lemma_populated_mid(
    m: Tables,
    path: Seq<Symbol>,
    symbol: Symbol,
    symbol_limit: Symbol,
    escape_symbol: Symbol,
    base: int,
)
    requires
        tables_mid(m, symbol_limit, escape_symbol, base, path.len() as int),
        symbol < symbol_limit,
        base >= 1,
        base < usize::MAX,
    ensures
        tables_mid(
            populated(m, path, symbol, symbol_limit, escape_symbol),
            symbol_limit,
            escape_symbol,
            base,
            path.len() as int + 1,
        ),
        populated(m, path, symbol, symbol_limit, escape_symbol)[path] == bumped(
            table_or_fresh(m, path, symbol_limit, escape_symbol),
            symbol,
        ),
        sum(populated(m, path, symbol, symbol_limit, escape_symbol)[path]) == sum(
            table_or_fresh(m, path, symbol_limit, escape_symbol),
        ) + 1,
{
    let m2 = populated(m, path, symbol, symbol_limit, escape_symbol);
    lemma_fresh_table(symbol_limit, escape_symbol);
    assert(is_prefix(path, path)) by {
        assert(path.subrange(0, path.len() as int) =~= path);
    }
    assert(is_prefix(Seq::<Symbol>::empty(), path)) by {
        assert(path.subrange(0, 0) =~= Seq::<Symbol>::empty());
    }
    assert forall|p: Seq<Symbol>| #[trigger] m2.contains_key(p) implies {
        &&& m2[p].len() == symbol_limit
        &&& m2[p][escape_symbol as int] >= 1
        &&& 1 <= sum(m2[p]) <= base + (if p.len() < path.len() + 1 {
            1int
        } else {
            0int
        })
    } by {
        let t = table_or_fresh(m, p, symbol_limit, escape_symbol);
        if m.contains_key(p) {
            assert(t == m[p]);
        }
        assert(t.len() == symbol_limit && t[escape_symbol as int] >= 1 && 1 <= sum(t));
        if p == path {
            lemma_entry_le_sum(t, symbol as int);
            lemma_cumulative_update(
                t,
                symbol as int,
                (t[symbol as int] + 1) as usize,
                t.len() as int,
            );
        }
    }
    let t = table_or_fresh(m, path, symbol_limit, escape_symbol);
    if m.contains_key(path) {
        assert(t == m[path]);
    }
    lemma_entry_le_sum(t, symbol as int);
    lemma_cumulative_update(t, symbol as int, (t[symbol as int] + 1) as usize, t.len() as int);
}

/// Counting a symbol for a whole history keeps the tables of a model in shape,
/// and the root's sum grows by exactly one.
pub proof fn lemma_incremented_ok(
    m: Tables,
    h: Seq<Symbol>,
    symbol: Symbol,
    symbol_limit: Symbol,
    escape_symbol: Symbol,
)
    requires
        tables_ok(m, symbol_limit, escape_symbol),
        symbol < symbol_limit,
        sum(m[Seq::<Symbol>::empty()]) < usize::MAX,
    ensures
        tables_ok(
            incremented(m, h, symbol, symbol_limit, escape_symbol),
            symbol_limit,
            escape_symbol,
        ),
        sum(incremented(m, h, symbol, symbol_limit, escape_symbol)[Seq::<Symbol>::empty()]) == sum(
            m[Seq::<Symbol>::empty()],
        ) + 1,
{
    lemma_incremented_mid(m, h, symbol, symbol_limit, escape_symbol, h.len() as int);
}

/// The shape of the tables after counting at the suffixes up to length `upto`.
pub proof fn lemma_incremented_mid(
    m: Tables,
    h: Seq<Symbol>,
    symbol: Symbol,
    symbol_limit: Symbol,
    escape_symbol: Symbol,
    upto: int,
)
    requires
        tables_ok(m, symbol_limit, escape_symbol),
        symbol < symbol_limit,
        sum(m[Seq::<Symbol>::empty()]) < usize::MAX,
        -1 <= upto <= h.len(),
    ensures
        tables_mid(
            incremented_upto(m, h, symbol, symbol_limit, escape_symbol, upto),
            symbol_limit,
            escape_symbol,
            sum(m[Seq::<Symbol>::empty()]),
            upto + 1,
        ),
        upto >= 0 ==> sum(
            incremented_upto(m, h, symbol, symbol_limit, escape_symbol, upto)[Seq::<
                Symbol,
            >::empty()],
        ) == sum(m[Seq::<Symbol>::empty()]) + 1,
        upto >= 0 ==> tables_ok(
            incremented_upto(m, h, symbol, symbol_limit, escape_symbol, upto),
            symbol_limit,
            escape_symbol,
        ),
    decreases upto + 1,
{
    let root = Seq::<Symbol>::empty();
    let base = sum(m[root]);
    if upto >= 0 {
        lemma_incremented_mid(m, h, symbol, symbol_limit, escape_symbol, upto - 1);
        let prev = incremented_upto(m, h, symbol, symbol_limit, escape_symbol, upto - 1);
        let path = suffix(h, upto);
        lemma_populated_mid(prev, path, symbol, symbol_limit, escape_symbol, base);
        let next = populated(prev, path, symbol, symbol_limit, escape_symbol);
        assert(next == incremented_upto(m, h, symbol, symbol_limit, escape_symbol, upto));
        if upto == 0 {
            assert(path =~= root);
            assert(prev == m);
        } else {
            assert(path != root);
            assert(next[root] == prev[root]);
        }
    }
}

/// The situation of a context that just counted a symbol itself.
proof fn lemma_populate_leaf(
    before: Context,
    after: Context,
    symbol: Symbol,
    symbol_limit: Symbol,
    escape_symbol: Symbol,
)
    requires
        before.wf(symbol_limit, escape_symbol),
        symbol < symbol_limit,
        after.sub_ctxs == before.sub_ctxs,
        after.frequencies.wf(),
        after.frequencies.frequencies@ == bumped(before.frequencies.frequencies@, symbol),
        before.frequencies.frequencies@[symbol as int] < usize::MAX,
    ensures
        after.wf(symbol_limit, escape_symbol),
        after.tables() == populated(
            before.tables(),
            Seq::<Symbol>::empty(),
            symbol,
            symbol_limit,
            escape_symbol,
        ),
{
    let root = Seq::<Symbol>::empty();
    let goal = populated(before.tables(), root, symbol, symbol_limit, escape_symbol);
    assert(before.descend(root) == Some(before));
    assert(after.descend(root) == Some(after));
    assert forall|p: Seq<Symbol>| p.len() > 0 implies #[trigger] after.descend(p)
        == before.descend(p) by {}
    assert forall|p: Seq<Symbol>| #[trigger] after.descend(p) is Some implies {
        &&& after.descend(p).unwrap().frequencies.wf()
        &&& after.descend(p).unwrap().frequencies.frequencies@.len() == symbol_limit
        &&& after.descend(p).unwrap().frequencies.frequencies@[escape_symbol as int] >= 1
    } by {
        if p.len() > 0 {
            assert(before.descend(p) is Some);
        } else {
            assert(p =~= root);
        }
    }
    assert forall|p: Seq<Symbol>| after.tables().contains_key(p) == goal.contains_key(p) by {
        if p.len() == 0 {
            assert(p =~= root);
        } else {
            assert(!is_prefix(p, root));
        }
    }
    assert forall|p: Seq<Symbol>| #[trigger]
        after.tables().contains_key(p) implies after.tables()[p] == goal[p] by {
        if p.len() == 0 {
            assert(p =~= root);
        }
    }
    assert(after.tables() =~= goal);
}

/// The same situation, seen at one path `p`.
proof fn lemma_populate_inner_at(
    before: Context,
    after: Context,
    sub_before: Context,
    sub_after: Context,
    h: Seq<Symbol>,
    symbol: Symbol,
    symbol_limit: Symbol,
    escape_symbol: Symbol,
    p: Seq<Symbol>,
)
    requires
        h.len() > 0,
        before.wf(symbol_limit, escape_symbol),
        after.frequencies == before.frequencies,
        after.sub_ctxs@.contains_key(h[0]),
        after.sub_ctxs@[h[0]] == sub_after,
        forall|k: Symbol|
            k != h[0] ==> (#[trigger] after.sub_ctxs@.contains_key(k))
                == before.sub_ctxs@.contains_key(k),
        forall|k: Symbol|
            k != h[0] && #[trigger] after.sub_ctxs@.contains_key(k) ==> after.sub_ctxs@[k]
                == before.sub_ctxs@[k],
        before.sub_ctxs@.contains_key(h[0]) ==> sub_before == before.sub_ctxs@[h[0]],
        !before.sub_ctxs@.contains_key(h[0]) ==> sub_before.sub_ctxs@ == Map::<
            Symbol,
            Context,
        >::empty() && sub_before.frequencies.frequencies@ == fresh_table(
            symbol_limit,
            escape_symbol,
        ),
        sub_after.wf(symbol_limit, escape_symbol),
        sub_after.tables() == populated(
            sub_before.tables(),
            h.skip(1),
            symbol,
            symbol_limit,
            escape_symbol,
        ),
    ensures
        after.tables().contains_key(p) == populated(
            before.tables(),
            h,
            symbol,
            symbol_limit,
            escape_symbol,
        ).contains_key(p),
        after.tables().contains_key(p) ==> after.tables()[p] == populated(
            before.tables(),
            h,
            symbol,
            symbol_limit,
            escape_symbol,
        )[p],
{
    let root = Seq::<Symbol>::empty();
    let goal = populated(before.tables(), h, symbol, symbol_limit, escape_symbol);
    let sub_goal = populated(sub_before.tables(), h.skip(1), symbol, symbol_limit, escape_symbol);
    let existed = before.sub_ctxs@.contains_key(h[0]);
    assert(before.descend(root) == Some(before));
    assert(after.descend(root) == Some(after));
    assert(sub_before.descend(root) == Some(sub_before));
    let tof = table_or_fresh(before.tables(), p, symbol_limit, escape_symbol);
    if p.len() == 0 {
        assert(p =~= root);
        assert(h.subrange(0, 0) =~= root);
        assert(is_prefix(p, h));
        assert(p != h);
        assert(after.tables().contains_key(p));
        assert(goal.contains_key(p));
        assert(after.tables()[p] == before.frequencies.frequencies@);
        assert(tof == before.frequencies.frequencies@);
    } else if p[0] == h[0] {
        let q = p.skip(1);
        let sub_tof = table_or_fresh(sub_before.tables(), q, symbol_limit, escape_symbol);
        lemma_prefix_step(p, h);
        assert(after.descend(p) == sub_after.descend(q));
        assert(after.tables().contains_key(p) == sub_after.tables().contains_key(q));
        assert(sub_after.tables().contains_key(q) == sub_goal.contains_key(q));
        assert((p == h) == (q == h.skip(1))) by {
            if q == h.skip(1) {
                assert(p =~= seq![p[0]] + q);
                assert(h =~= seq![h[0]] + h.skip(1));
            }
        }
        if existed {
            assert(before.descend(p) == sub_before.descend(q));
            assert(before.tables().contains_key(p) == sub_before.tables().contains_key(q));
            assert(tof == sub_tof);
        } else {
            assert(before.descend(p) is None);
            assert(!before.tables().contains_key(p));
            if q.len() > 0 {
                assert(sub_before.descend(q) is None);
                assert(!sub_before.tables().contains_key(q));
            } else {
                assert(q =~= root);
                assert(h.skip(1).subrange(0, 0) =~= root);
                assert(is_prefix(q, h.skip(1)));
                assert(sub_before.tables()[q] == fresh_table(symbol_limit, escape_symbol));
            }
            assert(tof == sub_tof);
        }
        assert(goal.contains_key(p) == sub_goal.contains_key(q));
        if after.tables().contains_key(p) {
            assert(after.tables()[p] == sub_after.tables()[q]);
            assert(sub_after.tables()[q] == sub_goal[q]);
            assert(sub_goal[q] == goal[p]);
        }
    } else {
        assert(after.descend(p) == before.descend(p));
        assert(!is_prefix(p, h)) by {
            if is_prefix(p, h) {
                assert(h.subrange(0, p.len() as int)[0] == h[0]);
            }
        }
        assert(p != h);
        assert(after.tables().contains_key(p) == before.tables().contains_key(p));
        assert(goal.contains_key(p) == before.tables().contains_key(p));
        if after.tables().contains_key(p) {
            assert(after.tables()[p] == before.tables()[p]);
            assert(goal[p] == tof);
        }
    }
}

/// The situation of a context whose sub-context for the first symbol of `h`
/// counted a symbol along the rest of `h`.
proof fn lemma_populate_inner(
    before: Context,
    after: Context,
    sub_before: Context,
    sub_after: Context,
    h: Seq<Symbol>,
    symbol: Symbol,
    symbol_limit: Symbol,
    escape_symbol: Symbol,
)
    requires
        h.len() > 0,
        before.wf(symbol_limit, escape_symbol),
        after.frequencies == before.frequencies,
        after.sub_ctxs@.contains_key(h[0]),
        after.sub_ctxs@[h[0]] == sub_after,
        forall|k: Symbol|
            k != h[0] ==> (#[trigger] after.sub_ctxs@.contains_key(k))
                == before.sub_ctxs@.contains_key(k),
        forall|k: Symbol|
            k != h[0] && #[trigger] after.sub_ctxs@.contains_key(k) ==> after.sub_ctxs@[k]
                == before.sub_ctxs@[k],
        before.sub_ctxs@.contains_key(h[0]) ==> sub_before == before.sub_ctxs@[h[0]],
        !before.sub_ctxs@.contains_key(h[0]) ==> sub_before.sub_ctxs@ == Map::<
            Symbol,
            Context,
        >::empty() && sub_before.frequencies.frequencies@ == fresh_table(
            symbol_limit,
            escape_symbol,
        ),
        sub_after.wf(symbol_limit, escape_symbol),
        sub_after.tables() == populated(
            sub_before.tables(),
            h.skip(1),
            symbol,
            symbol_limit,
            escape_symbol,
        ),
    ensures
        after.wf(symbol_limit, escape_symbol),
        after.tables() == populated(before.tables(), h, symbol, symbol_limit, escape_symbol),
{
    let root = Seq::<Symbol>::empty();
    let goal = populated(before.tables(), h, symbol, symbol_limit, escape_symbol);
    let sub_goal = populated(sub_before.tables(), h.skip(1), symbol, symbol_limit, escape_symbol);
    let existed = before.sub_ctxs@.contains_key(h[0]);
    assert(before.descend(root) == Some(before));
    assert(after.descend(root) == Some(after));
    assert(sub_before.descend(root) == Some(sub_before));
    assert forall|p: Seq<Symbol>| #[trigger] after.descend(p) is Some implies {
        &&& after.descend(p).unwrap().frequencies.wf()
        &&& after.descend(p).unwrap().frequencies.frequencies@.len() == symbol_limit
        &&& after.descend(p).unwrap().frequencies.frequencies@[escape_symbol as int] >= 1
    } by {
        if p.len() == 0 {
            assert(p =~= root);
        } else if p[0] == h[0] {
            assert(sub_after.descend(p.skip(1)) is Some);
        } else {
            assert(before.descend(p) is Some);
        }
    }
    assert forall|p: Seq<Symbol>| after.tables().contains_key(p) == goal.contains_key(p) by {
        lemma_populate_inner_at(
            before,
            after,
            sub_before,
            sub_after,
            h,
            symbol,
            symbol_limit,
            escape_symbol,
            p,
        );
    }
    assert forall|p: Seq<Symbol>| #[trigger]
        after.tables().contains_key(p) implies after.tables()[p] == goal[p] by {
        lemma_populate_inner_at(
            before,
            after,
            sub_before,
            sub_after,
            h,
            symbol,
            symbol_limit,
            escape_symbol,
            p,
        );
    }
    assert(after.tables() =~= goal);
}

/// A non-empty path is a prefix of `h` exactly when it starts like `h` and its
/// rest is a prefix of the rest of `h`.
proof fn lemma_prefix_step(p: Seq<Symbol>, h: Seq<Symbol>)
    requires
        p.len() > 0,
        h.len() > 0,
        p[0] == h[0],
    ensures
        is_prefix(p, h) == is_prefix(p.skip(1), h.skip(1)),
{
    if is_prefix(p, h) {
        assert(p.skip(1) =~= h.skip(1).subrange(0, p.len() - 1));
    }
    if is_prefix(p.skip(1), h.skip(1)) {
        let q = p.skip(1);
        assert forall|i: int| 0 <= i < p.len() implies p[i] == h.subrange(0, p.len() as int)[i] by {
            if i > 0 {
                assert(p[i] == q[i - 1]);
                assert(q[i - 1] == h.skip(1).subrange(0, q.len() as int)[i - 1]);
            }
        }
        assert(p =~= h.subrange(0, p.len() as int));
    }
}

/// Counts `symbol` in the context that `history` leads to from `ctx`, creating
/// the contexts on the way that do not exist yet.
pub fn populate_contexts(
    ctx: &mut Context,
    history: &[Symbol],
    symbol: Symbol,
    escape_symbol: Symbol,
    symbol_limit: u16,
)
    requires
        old(ctx).wf(symbol_limit, escape_symbol),
        symbol < symbol_limit,
        escape_symbol < symbol_limit,
        old(ctx).tables().contains_key(history@) ==> sum(old(ctx).tables()[history@])
            < usize::MAX,
    ensures
        final(ctx).wf(symbol_limit, escape_symbol),
        final(ctx).tables() == populated(
            old(ctx).tables(),
            history@,
            symbol,
            symbol_limit,
            escape_symbol,
        ),
    decreases history@.len(),
{
    let ghost before = *ctx;
    let ghost root = Seq::<Symbol>::empty();
    proof {
        assert(before.descend(root) == Some(before));
        assert(before.tables().contains_key(root));
    }
    if history.len() == 0 {
        proof {
            assert(history@ =~= root);
            lemma_entry_le_sum(ctx.frequencies.frequencies@, symbol as int);
        }
        ctx.frequencies.increment(symbol);
        proof {
            lemma_populate_leaf(before, *ctx, symbol, symbol_limit, escape_symbol);
        }
        return ;
    }
    let sym: Symbol = history[0];
    let mut sub: Context = match ctx.sub_ctxs.remove(&sym) {
        Some(existing) => {
            proof {
                before.lemma_child_wf(sym, symbol_limit, escape_symbol);
            }
            existing
        },
        None => {
            let mut sub_ctx = Context::new(symbol_limit);
            proof {
                super::context::lemma_zeros_sum(symbol_limit as nat, symbol_limit as int);
            }
            sub_ctx.frequencies.increment(escape_symbol);
            proof {
                lemma_fresh_leaf(sub_ctx, symbol_limit, escape_symbol);
            }
            sub_ctx
        },
    };
    let ghost sub_before = sub;
    proof {
        lemma_fresh_table(symbol_limit, escape_symbol);
    }
    let rest = slice_subrange(history, 1, history.len());
    proof {
        let q = history@.skip(1);
        assert(rest@ =~= q);
        if sub.tables().contains_key(q) {
            if before.sub_ctxs@.contains_key(sym) {
                assert(before.descend(history@) == sub.descend(q));
                assert(before.tables().contains_key(history@));
            } else {
                if q.len() > 0 {
                    assert(sub.descend(q) is None);
                } else {
                    assert(q =~= root);
                    assert(sub.descend(root) == Some(sub));
                }
            }
        }
    }
    populate_contexts(&mut sub, rest, symbol, escape_symbol, symbol_limit);
    let ghost sub_after = sub;
    ctx.sub_ctxs.insert(sym, sub);
    proof {
        lemma_populate_inner(
            before,
            *ctx,
            sub_before,
            sub_after,
            history@,
            symbol,
            symbol_limit,
            escape_symbol,
        );
    }
}

/// A context without children whose table is fresh is well-formed.
proof fn lemma_fresh_leaf(c: Context, symbol_limit: Symbol, escape_symbol: Symbol)
    requires
        escape_symbol < symbol_limit,
        c.sub_ctxs@ == Map::<Symbol, Context>::empty(),
        c.frequencies.wf(),
        c.frequencies.frequencies@ == fresh_table(symbol_limit, escape_symbol),
    ensures
        c.wf(symbol_limit, escape_symbol),
        c.tables() == Map::<Seq<Symbol>, Seq<usize>>::empty().insert(
            Seq::<Symbol>::empty(),
            fresh_table(symbol_limit, escape_symbol),
        ),
{
    let root = Seq::<Symbol>::empty();
    assert(c.descend(root) == Some(c));
    assert forall|p: Seq<Symbol>| #[trigger] c.descend(p) is Some implies p == root by {
        if p.len() > 0 {
            assert(c.descend(p) is None);
        } else {
            assert(p =~= root);
        }
    }
    assert(c.tables() =~= Map::<Seq<Symbol>, Seq<usize>>::empty().insert(
        root,
        fresh_table(symbol_limit, escape_symbol),
    ));
}

/// The statistical model: a tree of contexts up to a fixed depth, and the table
/// that is used when no context knows a symbol.
pub struct PPMModel {
    pub context: Context,
    pub order: u8,
    pub order_minus1_freqs: FlatFrequencyTable,
    pub symbol_limit: u16,
    pub escape_symbol: Symbol,
}

impl View for PPMModel {
    type V = Tables;

    /// The frequency tables of the model, by the history each belongs to.
    open spec fn view(&self) -> Tables {
        self.context.tables()
    }
}

impl PPMModel {
    /// The model's internal consistency.
    pub open spec fn wf(&self) -> bool {
        &&& self.context.wf(self.symbol_limit, self.escape_symbol)
        &&& tables_ok(self@, self.symbol_limit, self.escape_symbol)
        &&& depth_ok(self@, self.order as int)
        &&& self.order_minus1_freqs.num_symbols == self.symbol_limit
    }

    /// In every context of a well-formed model the escape symbol is counted
    /// at least once, so the total is at least one, and no context lies
    /// deeper than the model's order.
    pub proof fn lemma_contexts(&self, p: Seq<Symbol>)
        requires
            self.wf(),
            self.context.descend(p) is Some,
        ensures
            self.context.descend(p).unwrap().frequencies.frequencies@[self.escape_symbol as int]
                >= 1,
            self.context.descend(p).unwrap().frequencies.total >= 1,
            p.len() <= self.order,
    {
        assert(self@.contains_key(p));
        let t = self@[p];
        assert(t == self.context.descend(p).unwrap().frequencies.frequencies@);
    }

    /// A model that has seen nothing: its only context is the root, fresh.
    pub fn new(order: u8, symbol_limit: u16, escape_symbol: Symbol) -> (m: Self)
        requires
            escape_symbol < symbol_limit,
        ensures
            m.wf(),
            m.order == order,
            m.symbol_limit == symbol_limit,
            m.escape_symbol == escape_symbol,
            m@ == Map::<Seq<Symbol>, Seq<usize>>::empty().insert(
                Seq::<Symbol>::empty(),
                fresh_table(symbol_limit, escape_symbol),
            ),
    {
        let mut context = Context::new(symbol_limit);
        proof {
            super::context::lemma_zeros_sum(symbol_limit as nat, symbol_limit as int);
        }
        context.frequencies.increment(escape_symbol);
        proof {
            lemma_fresh_leaf(context, symbol_limit, escape_symbol);
            lemma_fresh_table(symbol_limit, escape_symbol);
        }
        PPMModel {
            order_minus1_freqs: FlatFrequencyTable::new(symbol_limit),
            order,
            symbol_limit,
            escape_symbol,
            context,
        }
    }

    /// Counts `symbol` once in the context of every suffix of `history`.
    pub fn increment_contexts(&mut self, history: &[Symbol], symbol: Symbol)
        requires
            old(self).wf(),
            history@.len() <= old(self).order,
            symbol < old(self).symbol_limit,
            sum(old(self)@[Seq::<Symbol>::empty()]) < usize::MAX,
        ensures
            final(self).wf(),
            final(self)@ == incremented(
                old(self)@,
                history@,
                symbol,
                old(self).symbol_limit,
                old(self).escape_symbol,
            ),
            sum(final(self)@[Seq::<Symbol>::empty()]) == sum(old(self)@[Seq::<Symbol>::empty()])
                + 1,
            final(self).order == old(self).order,
            final(self).symbol_limit == old(self).symbol_limit,
            final(self).escape_symbol == old(self).escape_symbol,
            final(self).order_minus1_freqs == old(self).order_minus1_freqs,
    {
        let hist_len: usize = history.len();
        let ghost start = self@;
        let ghost base = sum(start[Seq::<Symbol>::empty()]);
        let mut order: usize = 0;
        proof {
            lemma_incremented_mid(
                start,
                history@,
                symbol,
                self.symbol_limit,
                self.escape_symbol,
                -1,
            );
        }
        while order <= hist_len
            invariant
                hist_len == history@.len(),
                hist_len <= 255,
                order <= hist_len + 1,
                start == old(self)@,
                base == sum(start[Seq::<Symbol>::empty()]),
                base < usize::MAX,
                tables_ok(start, self.symbol_limit, self.escape_symbol),
                depth_ok(start, self.order as int),
                hist_len <= self.order,
                symbol < self.symbol_limit,
                self.context.wf(self.symbol_limit, self.escape_symbol),
                self@ == incremented_upto(
                    start,
                    history@,
                    symbol,
                    self.symbol_limit,
                    self.escape_symbol,
                    order - 1,
                ),
                self.order == old(self).order,
                self.symbol_limit == old(self).symbol_limit,
                self.escape_symbol == old(self).escape_symbol,
                self.order_minus1_freqs == old(self).order_minus1_freqs,
            decreases hist_len + 1 - order,
        {
            proof {
                lemma_incremented_mid(
                    start,
                    history@,
                    symbol,
                    self.symbol_limit,
                    self.escape_symbol,
                    order - 1,
                );
                lemma_incremented_mid(
                    start,
                    history@,
                    symbol,
                    self.symbol_limit,
                    self.escape_symbol,
                    order as int,
                );
            }
            let path = slice_subrange(history, hist_len - order, hist_len);
            populate_contexts(
                &mut self.context,
                path,
                symbol,
                self.escape_symbol,
                self.symbol_limit,
            );
            order = order + 1;
        }
        proof {
            lemma_incremented_ok(start, history@, symbol, self.symbol_limit, self.escape_symbol);
            lemma_incremented_depth(
                start,
                history@,
                symbol,
                self.symbol_limit,
                self.escape_symbol,
                hist_len as int,
                self.order as int,
            );
        }
    }
}

} // verus!
