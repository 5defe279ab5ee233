//! The orders that block sorting rests on, and facts about rearranged sequences.

use vstd::prelude::*;
use vstd::relations::total_ordering;

verus! {

/// Whether `a` comes before `b`, or is `b`, in dictionary order.
pub open spec fn lex_le(a: Seq<u8>, b: Seq<u8>) -> bool
    decreases a.len(),
{
    if a.len() == 0 {
        true
    } else if b.len() == 0 {
        false
    } else if a[0] != b[0] {
        a[0] < b[0]
    } else {
        lex_le(a.skip(1), b.skip(1))
    }
}

/// Dictionary order as a relation.
pub open spec fn lex_order() -> spec_fn(Seq<u8>, Seq<u8>) -> bool {
    |a: Seq<u8>, b: Seq<u8>| lex_le(a, b)
}

pub proof fn lemma_lex_reflexive(a: Seq<u8>)
    ensures
        lex_le(a, a),
    decreases a.len(),
{
    if a.len() > 0 {
        lemma_lex_reflexive(a.skip(1));
    }
}

pub proof fn lemma_lex_antisymmetric(a: Seq<u8>, b: Seq<u8>)
    requires
        lex_le(a, b),
        lex_le(b, a),
    ensures
        a == b,
    decreases a.len(),
{
    if a.len() == 0 {
        assert(b.len() == 0);
        assert(a =~= b);
    } else {
        lemma_lex_antisymmetric(a.skip(1), b.skip(1));
        assert(a =~= seq![a[0]] + a.skip(1));
        assert(b =~= seq![b[0]] + b.skip(1));
    }
}

pub proof fn lemma_lex_transitive(a: Seq<u8>, b: Seq<u8>, c: Seq<u8>)
    requires
        lex_le(a, b),
        lex_le(b, c),
    ensures
        lex_le(a, c),
    decreases a.len(),
{
    if a.len() > 0 && a[0] == b[0] && b[0] == c[0] {
        lemma_lex_transitive(a.skip(1), b.skip(1), c.skip(1));
    }
}

pub proof fn lemma_lex_connected(a: Seq<u8>, b: Seq<u8>)
    ensures
        lex_le(a, b) || lex_le(b, a),
    decreases a.len(),
{
    if a.len() > 0 && b.len() > 0 && a[0] == b[0] {
        lemma_lex_connected(a.skip(1), b.skip(1));
    }
}

/// Dictionary order is a total order.
pub proof fn lemma_lex_total()
    ensures
        total_ordering(lex_order()),
{
    let r = lex_order();
    assert forall|x: Seq<u8>| #[trigger] r(x, x) by {
        lemma_lex_reflexive(x);
    }
    assert forall|x: Seq<u8>, y: Seq<u8>| #[trigger] r(x, y) && #[trigger] r(y, x) implies x
        == y by {
        lemma_lex_antisymmetric(x, y);
    }
    assert forall|x: Seq<u8>, y: Seq<u8>, z: Seq<u8>| #[trigger]
        r(x, y) && #[trigger] r(y, z) implies r(x, z) by {
        lemma_lex_transitive(x, y, z);
    }
    assert forall|x: Seq<u8>, y: Seq<u8>| #[trigger] r(x, y) || #[trigger] r(y, x) by {
        lemma_lex_connected(x, y);
    }
}

/// Two sequences of one length that first differ at `k` are ordered as their
/// entries at `k`.
pub proof fn lemma_lex_first_difference(a: Seq<u8>, b: Seq<u8>, k: int)
    requires
        a.len() == b.len(),
        0 <= k < a.len(),
        forall|j: int| 0 <= j < k ==> a[j] == b[j],
        a[k] < b[k],
    ensures
        lex_le(a, b),
        !lex_le(b, a),
    decreases k,
{
    if k > 0 {
        lemma_lex_first_difference(a.skip(1), b.skip(1), k - 1);
    }
}

/// With a common first entry, the order is that of the rests.
pub proof fn lemma_lex_cons(c: u8, a: Seq<u8>, b: Seq<u8>)
    ensures
        lex_le(seq![c] + a, seq![c] + b) == lex_le(a, b),
{
    assert((seq![c] + a).skip(1) =~= a);
    assert((seq![c] + b).skip(1) =~= b);
}

/// With a common last entry and one length, the order is that of what stands
/// before the last entry.
pub proof fn lemma_lex_drop_last(a: Seq<u8>, b: Seq<u8>)
    requires
        a.len() == b.len(),
        a.len() > 0,
        a.last() == b.last(),
        lex_le(a, b),
    ensures
        lex_le(a.drop_last(), b.drop_last()),
    decreases a.len(),
{
    if a.len() > 1 {
        assert(a.drop_last()[0] == a[0]);
        assert(b.drop_last()[0] == b[0]);
        if a[0] == b[0] {
            assert(a.skip(1).drop_last() =~= a.drop_last().skip(1));
            assert(b.skip(1).drop_last() =~= b.drop_last().skip(1));
            lemma_lex_drop_last(a.skip(1), b.skip(1));
        }
    }
}

/// The order of bytes tagged with a place: by byte, and by place among equal bytes.
pub open spec fn tagged_le(x: (u8, int), y: (u8, int)) -> bool {
    x.0 < y.0 || (x.0 == y.0 && x.1 <= y.1)
}

/// The order of tagged bytes as a relation.
pub open spec fn tagged_order() -> spec_fn((u8, int), (u8, int)) -> bool {
    |x: (u8, int), y: (u8, int)| tagged_le(x, y)
}

/// The order of tagged bytes is a total order.
pub proof fn lemma_tagged_total()
    ensures
        total_ordering(tagged_order()),
{
    let r = tagged_order();
    assert forall|x: (u8, int), y: (u8, int)| #[trigger] r(x, y) && #[trigger] r(y, x) implies x
        == y by {
        assert(x.0 == y.0 && x.1 == y.1);
    }
}

/// Applying a function to two arrangements of the same items gives two
/// arrangements of the same items.
pub proof fn lemma_map_multiset<A, B>(x: Seq<A>, y: Seq<A>, f: spec_fn(A) -> B)
    requires
        x.to_multiset() == y.to_multiset(),
    ensures
        x.map_values(f).to_multiset() == y.map_values(f).to_multiset(),
    decreases x.len(),
{
    broadcast use vstd::seq_lib::group_to_multiset_ensures;
    broadcast use vstd::multiset::group_multiset_axioms;

    vstd::seq_lib::to_multiset_len(x);
    vstd::seq_lib::to_multiset_len(y);
    assert(x.len() == y.len());
    if x.len() == 0 {
        assert(x.map_values(f) =~= y.map_values(f));
    } else {
        let last = x.last();
        assert(x.contains(last));
        assert(y.to_multiset().count(last) > 0);
        assert(y.contains(last));
        let j = y.index_of(last);
        let x2 = x.drop_last();
        let y2 = y.remove(j);
        assert(x =~= x2.push(last));
        assert(x2.to_multiset() =~= x.to_multiset().remove(last)) by {
            assert(x2 =~= x.remove(x.len() - 1));
        }
        assert(y2.to_multiset() =~= y.to_multiset().remove(last));
        lemma_map_multiset(x2, y2, f);
        assert(x.map_values(f) =~= x2.map_values(f).push(f(last)));
        assert(y.map_values(f) =~= y2.map_values(f).insert(j, f(last)));
        vstd::seq_lib::to_multiset_insert(y2.map_values(f), j, f(last));
        vstd::seq_lib::to_multiset_build(x2.map_values(f), f(last));
    }
}

/// Every item of one arrangement occurs in any other arrangement of the same items.
pub proof fn lemma_multiset_contains<A>(x: Seq<A>, y: Seq<A>, i: int)
    requires
        x.to_multiset() == y.to_multiset(),
        0 <= i < x.len(),
    ensures
        y.contains(x[i]),
        x.len() == y.len(),
{
    broadcast use vstd::seq_lib::group_to_multiset_ensures;

    vstd::seq_lib::to_multiset_len(x);
    vstd::seq_lib::to_multiset_len(y);
    assert(x.contains(x[i]));
    assert(x.to_multiset().count(x[i]) > 0);
}

/// Moving the first items of a sequence behind the others rearranges it.
pub proof fn lemma_rotate_multiset<A>(x: Seq<A>, k: int)
    requires
        0 <= k <= x.len(),
    ensures
        (x.subrange(k, x.len() as int) + x.subrange(0, k)).to_multiset() == x.to_multiset(),
{
    broadcast use vstd::multiset::group_multiset_axioms;

    let a = x.subrange(0, k);
    let b = x.subrange(k, x.len() as int);
    vstd::seq_lib::lemma_multiset_commutative(a, b);
    vstd::seq_lib::lemma_multiset_commutative(b, a);
    assert(a + b =~= x);
    assert((b + a).to_multiset() =~= (a + b).to_multiset());
}

} // verus!
