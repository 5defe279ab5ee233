//! The inverse transform of a block's transform is the block.

use vstd::prelude::*;
use vstd::bytes::{
    lemma_auto_spec_u32_to_from_le_bytes, lemma_auto_spec_u64_to_from_le_bytes,
    spec_u32_to_le_bytes, spec_u64_to_le_bytes,
};
use vstd::relations::{sorted_by, total_ordering};
use vstd::seq_lib::lemma_sorted_unique;
use super::order::{
    lemma_lex_antisymmetric, lemma_lex_connected, lemma_lex_cons, lemma_lex_drop_last,
    lemma_lex_reflexive, lemma_lex_total, lemma_lex_transitive, lemma_map_multiset,
    lemma_multiset_contains, lemma_rotate_multiset, lemma_tagged_total, lex_le, lex_order,
    tagged_order,
};
use super::{
    bwt_data, bwt_forward, bwt_index, bwt_inverse, bwt_inverse_chunk, chunk_count, chunk_decoded,
    chunk_frame,
    chunk_frames, chunk_len, first_equal, lf_table, parse_chunks, rotation, rotations,
    sorted_rotations, tagged, walk,
};

verus! {

/// `s` turned to the left by one place.
pub open spec fn rotl(s: Seq<u8>) -> Seq<u8> {
    if s.len() == 0 {
        s
    } else {
        s.skip(1).push(s[0])
    }
}

/// `s` turned to the right by one place.
pub open spec fn rotr(s: Seq<u8>) -> Seq<u8> {
    if s.len() == 0 {
        s
    } else {
        seq![s.last()] + s.drop_last()
    }
}

/// Turning left as a function.
pub open spec fn rotl_of() -> spec_fn(Seq<u8>) -> Seq<u8> {
    |s: Seq<u8>| rotl(s)
}

/// The row that a tagged byte's place points at.
pub open spec fn row_of(rows: Seq<Seq<u8>>) -> spec_fn((u8, int)) -> Seq<u8> {
    |t: (u8, int)| rows[t.1]
}

/// Dictionary order of the rows turned right: by last byte first.
pub open spec fn turned_order() -> spec_fn(Seq<u8>, Seq<u8>) -> bool {
    |a: Seq<u8>, b: Seq<u8>| lex_le(rotr(a), rotr(b))
}

/// Turning right loses nothing.
proof fn lemma_rotr_injective(a: Seq<u8>, b: Seq<u8>)
    requires
        rotr(a) == rotr(b),
    ensures
        a == b,
{
    if a.len() == 0 {
        assert(rotr(b).len() == 0);
        assert(a =~= b);
    } else {
        assert(rotr(a).len() == a.len());
        assert(b.len() > 0);
        assert(rotr(a)[0] == a.last());
        assert(rotr(b)[0] == b.last());
        assert(rotr(a).skip(1) =~= a.drop_last());
        assert(rotr(b).skip(1) =~= b.drop_last());
        assert(a =~= a.drop_last().push(a.last()));
        assert(b =~= b.drop_last().push(b.last()));
    }
}

/// The order by last byte first is a total order.
proof fn lemma_turned_total()
    ensures
        total_ordering(turned_order()),
{
    let r = turned_order();
    assert forall|x: Seq<u8>| #[trigger] r(x, x) by {
        lemma_lex_reflexive(rotr(x));
    }
    assert forall|x: Seq<u8>, y: Seq<u8>| #[trigger] r(x, y) && #[trigger] r(y, x) implies x
        == y by {
        lemma_lex_antisymmetric(rotr(x), rotr(y));
        lemma_rotr_injective(x, y);
    }
    assert forall|x: Seq<u8>, y: Seq<u8>, z: Seq<u8>| #[trigger]
        r(x, y) && #[trigger] r(y, z) implies r(x, z) by {
        lemma_lex_transitive(rotr(x), rotr(y), rotr(z));
    }
    assert forall|x: Seq<u8>, y: Seq<u8>| #[trigger] r(x, y) || #[trigger] r(y, x) by {
        lemma_lex_connected(rotr(x), rotr(y));
    }
}

/// Turning a rotation left by one place gives the rotation that is turned one
/// place less to the right.
pub proof fn lemma_rotl_rotation(b: Seq<u8>, k: int)
    requires
        1 <= k <= b.len(),
    ensures
        rotl(rotation(b, k)) == rotation(b, k - 1),
        rotation(b, k).len() == b.len(),
        rotation(b, k)[0] == b[b.len() - k],
{
    assert(rotl(rotation(b, k)) =~= rotation(b, k - 1));
}

/// Turning the block itself left gives the rotation that is turned right by all
/// places but one.
pub proof fn lemma_rotl_block(b: Seq<u8>)
    requires
        b.len() > 0,
    ensures
        rotl(rotation(b, 0)) == rotation(b, b.len() - 1),
        rotation(b, 0) == b,
        rotation(b, b.len() as int) == b,
{
    assert(rotation(b, 0) =~= b);
    assert(rotation(b, b.len() as int) =~= b);
    assert(rotl(b) =~= rotation(b, b.len() - 1));
}

/// What links the sorted rows `rows` of a block with the table `t` of their
/// last column: every table row names a row whose last byte it holds, and that
/// row is the table row's own row turned left.
pub open spec fn linked(rows: Seq<Seq<u8>>, t: Seq<(u8, int)>) -> bool {
    &&& t.len() == rows.len()
    &&& forall|r: int|
        0 <= r < rows.len() ==> {
            &&& rows[r].len() == rows.len()
            &&& 0 <= (#[trigger] t[r]).1 < rows.len()
            &&& t[r].0 == rows[t[r].1].last()
            &&& rows[t[r].1] == rotl(rows[r])
        }
}

/// The rows of a block's sorted rotations are rotations of the block, and the
/// block is among them.
pub proof fn lemma_sorted_rows(b: Seq<u8>)
    ensures
        sorted_rotations(b).len() == b.len(),
        sorted_rotations(b).to_multiset() == rotations(b).to_multiset(),
        sorted_by(sorted_rotations(b), lex_order()),
        forall|r: int|
            0 <= r < b.len() ==> (#[trigger] sorted_rotations(b)[r]).len() == b.len()
                && rotations(b).contains(sorted_rotations(b)[r]),
        b.len() > 0 ==> sorted_rotations(b).contains(b),
{
    let rot = rotations(b);
    let rows = sorted_rotations(b);
    lemma_lex_total();
    rot.lemma_sort_by_ensures(lex_order());
    vstd::seq_lib::to_multiset_len(rot);
    vstd::seq_lib::to_multiset_len(rows);
    assert forall|r: int| 0 <= r < b.len() implies (#[trigger] rows[r]).len() == b.len()
        && rot.contains(rows[r]) by {
        lemma_multiset_contains(rows, rot, r);
        let k = rot.index_of(rows[r]);
        assert(rot[k] == rotation(b, k));
    }
    if b.len() > 0 {
        lemma_rotl_block(b);
        assert(rot[0] == b);
        lemma_multiset_contains(rot, rows, 0);
    }
}

/// `first_equal` finds a row that equals `b` when there is one at or after `from`.
pub proof fn lemma_first_equal(rows: Seq<Seq<u8>>, b: Seq<u8>, from: int, at: int)
    requires
        0 <= from <= at < rows.len(),
        rows[at] == b,
    ensures
        from <= first_equal(rows, b, from) <= at,
        rows[first_equal(rows, b, from)] == b,
        forall|q: int| from <= q < first_equal(rows, b, from) ==> rows[q] != b,
    decreases rows.len() - from,
{
    if rows[from] != b {
        lemma_first_equal(rows, b, from + 1, at);
    }
}

/// The table of a last column holds every byte of the column with its place.
pub proof fn lemma_table_rows(l: Seq<u8>)
    ensures
        lf_table(l).len() == l.len(),
        lf_table(l).to_multiset() == tagged(l).to_multiset(),
        sorted_by(lf_table(l), tagged_order()),
        forall|r: int|
            0 <= r < l.len() ==> 0 <= (#[trigger] lf_table(l)[r]).1 < l.len() && lf_table(l)[r].0
                == l[lf_table(l)[r].1],
{
    let tg = tagged(l);
    let t = lf_table(l);
    lemma_tagged_total();
    tg.lemma_sort_by_ensures(tagged_order());
    vstd::seq_lib::to_multiset_len(tg);
    vstd::seq_lib::to_multiset_len(t);
    assert forall|r: int| 0 <= r < l.len() implies 0 <= (#[trigger] t[r]).1 < l.len() && t[r].0
        == l[t[r].1] by {
        lemma_multiset_contains(t, tg, r);
        let i = tg.index_of(t[r]);
        assert(tg[i] == (l[i], i));
    }
}

/// The rows turned left, in the order of the rows.
pub open spec fn rows_turned(rows: Seq<Seq<u8>>) -> Seq<Seq<u8>> {
    rows.map_values(rotl_of())
}

/// The rows that the table names, in the order of the table.
pub open spec fn rows_named(rows: Seq<Seq<u8>>, t: Seq<(u8, int)>) -> Seq<Seq<u8>> {
    t.map_values(row_of(rows))
}

/// The rows turned left and the rows that the table names are the same rows,
/// in some order.
proof fn lemma_same_rows(b: Seq<u8>)
    requires
        b.len() > 0,
    ensures
        rows_turned(sorted_rotations(b)).to_multiset() == rows_named(
            sorted_rotations(b),
            lf_table(bwt_data(b)),
        ).to_multiset(),
{
    let n = b.len() as int;
    let rot = rotations(b);
    let rows = sorted_rotations(b);
    let l = bwt_data(b);
    let t = lf_table(l);
    let tg = tagged(l);
    lemma_sorted_rows(b);
    lemma_table_rows(l);
    lemma_map_multiset(t, tg, row_of(rows));
    assert(tg.map_values(row_of(rows)) =~= rows);
    lemma_map_multiset(rows, rot, rotl_of());
    let turned = rot.subrange(n - 1, n) + rot.subrange(0, n - 1);
    assert forall|k: int| 0 <= k < n implies rot.map_values(rotl_of())[k] == turned[k] by {
        if k == 0 {
            lemma_rotl_block(b);
        } else {
            lemma_rotl_rotation(b, k);
        }
    }
    assert(rot.map_values(rotl_of()) =~= turned);
    lemma_rotate_multiset(rot, n - 1);
}

/// The rows turned left are in order by last byte first.
proof fn lemma_turned_sorted(b: Seq<u8>)
    requires
        b.len() > 0,
    ensures
        sorted_by(rows_turned(sorted_rotations(b)), turned_order()),
{
    let n = b.len() as int;
    let rows = sorted_rotations(b);
    let left = rows_turned(rows);
    lemma_sorted_rows(b);
    assert forall|i: int, j: int| 0 <= i < j < left.len() implies #[trigger] turned_order()(
        left[i],
        left[j],
    ) by {
        assert(rows[i].len() == n && rows[j].len() == n);
        assert(rotr(rotl(rows[i])) =~= rows[i]);
        assert(rotr(rotl(rows[j])) =~= rows[j]);
        assert(lex_order()(rows[i], rows[j]));
    }
}

/// Two rows of one length, the first with the smaller last byte or with the
/// same last byte and before the second in dictionary order, are in order by
/// last byte first.
proof fn lemma_turned_le(x: Seq<u8>, y: Seq<u8>)
    requires
        x.len() == y.len(),
        x.len() > 0,
        x.last() < y.last() || (x.last() == y.last() && lex_le(x, y)),
    ensures
        lex_le(rotr(x), rotr(y)),
{
    assert(rotr(x)[0] == x.last());
    assert(rotr(y)[0] == y.last());
    if x.last() == y.last() {
        lemma_lex_drop_last(x, y);
        lemma_lex_cons(x.last(), x.drop_last(), y.drop_last());
    }
}

/// The rows that the table names are in order by last byte first.
proof fn lemma_named_sorted(b: Seq<u8>)
    requires
        b.len() > 0,
    ensures
        sorted_by(rows_named(sorted_rotations(b), lf_table(bwt_data(b))), turned_order()),
{
    let n = b.len() as int;
    let rows = sorted_rotations(b);
    let l = bwt_data(b);
    let t = lf_table(l);
    let named = rows_named(rows, t);
    lemma_sorted_rows(b);
    lemma_table_rows(l);
    assert forall|i: int, j: int| 0 <= i < j < named.len() implies #[trigger] turned_order()(
        named[i],
        named[j],
    ) by {
        let x = rows[t[i].1];
        let y = rows[t[j].1];
        assert(named[i] == x && named[j] == y);
        assert(x.len() == n && y.len() == n);
        assert(tagged_order()(t[i], t[j]));
        assert(l[t[i].1] == x.last());
        assert(l[t[j].1] == y.last());
        if t[i].0 == t[j].0 {
            if t[i].1 < t[j].1 {
                assert(lex_order()(rows[t[i].1], rows[t[j].1]));
            } else {
                lemma_lex_reflexive(x);
            }
        }
        lemma_turned_le(x, y);
    }
}

/// The sorted rotations of a block and the table of their last column are linked.
pub proof fn lemma_linked(b: Seq<u8>)
    requires
        b.len() > 0,
    ensures
        linked(sorted_rotations(b), lf_table(bwt_data(b))),
{
    let rows = sorted_rotations(b);
    let l = bwt_data(b);
    let t = lf_table(l);
    let left = rows_turned(rows);
    let named = rows_named(rows, t);
    lemma_sorted_rows(b);
    lemma_table_rows(l);
    lemma_turned_total();
    lemma_same_rows(b);
    lemma_turned_sorted(b);
    lemma_named_sorted(b);
    lemma_sorted_unique(left, named, turned_order());
    assert forall|r: int| 0 <= r < rows.len() implies {
        &&& rows[r].len() == rows.len()
        &&& 0 <= (#[trigger] t[r]).1 < rows.len()
        &&& t[r].0 == rows[t[r].1].last()
        &&& rows[t[r].1] == rotl(rows[r])
    } by {
        assert(left[r] == named[r]);
        assert(l[t[r].1] == rows[t[r].1].last());
    }
}

/// A walk that starts at the row of the block turned left by `done` places
/// reads the block from place `done` on.
pub proof fn lemma_walk(b: Seq<u8>, rows: Seq<Seq<u8>>, t: Seq<(u8, int)>, idx: int, done: int)
    requires
        rows.len() == b.len(),
        linked(rows, t),
        0 <= done <= b.len(),
        0 <= idx < rows.len(),
        rows[idx] == rotation(b, b.len() - done),
    ensures
        walk(t, idx, (b.len() - done) as nat) == b.subrange(done, b.len() as int),
    decreases b.len() - done,
{
    let n = b.len() as int;
    if done < n {
        lemma_rotl_rotation(b, n - done);
        let next = t[idx].1;
        assert(rows[next] == rotl(rows[idx]));
        assert(rows[next] == rotation(b, n - (done + 1)));
        assert(rotl(rows[idx]).last() == rows[idx][0]);
        assert(t[idx].0 == b[done]);
        lemma_walk(b, rows, t, next, done + 1);
        assert(seq![b[done]] + b.subrange(done + 1, n) =~= b.subrange(done, n));
    } else {
        assert(b.subrange(done, n) =~= Seq::<u8>::empty());
    }
}

/// The inverse transform of a block's transform is the block, for every block.
pub proof fn theorem_chunk_roundtrip(b: Seq<u8>)
    ensures
        bwt_inverse_chunk(bwt_data(b), bwt_index(b)) == b,
        bwt_data(b).len() == b.len(),
        b.len() > 0 ==> 0 <= bwt_index(b) < b.len(),
        b.len() == 0 ==> bwt_index(b) == 0,
{
    let n = b.len() as int;
    let rows = sorted_rotations(b);
    lemma_sorted_rows(b);
    if n == 0 {
        assert(b =~= Seq::<u8>::empty());
    } else {
        let at = rows.index_of(b);
        lemma_first_equal(rows, b, 0, at);
        lemma_linked(b);
        lemma_rotl_block(b);
        lemma_walk(b, rows, lf_table(bwt_data(b)), bwt_index(b), 0);
        assert(b.subrange(0, n) =~= b);
    }
}

/// Framed blocks behind any bytes are read back as the input they were cut from.
pub proof fn lemma_frames_roundtrip(pre: Seq<u8>, x: Seq<u8>)
    ensures
        parse_chunks(pre + chunk_frames(x), pre.len() as int, chunk_count(x.len() as int) as nat)
            == Some(x),
    decreases x.len(),
{
    let n = x.len() as int;
    let bytes = pre + chunk_frames(x);
    let pos = pre.len() as int;
    if n == 0 {
        assert(x =~= Seq::<u8>::empty());
    } else {
        let c = chunk_len(n);
        let head = x.take(c);
        let tail = x.skip(c);
        let data = bwt_data(head);
        let index = bwt_index(head) as u32;
        let frame = chunk_frame(data, index);
        theorem_chunk_roundtrip(head);
        lemma_auto_spec_u64_to_from_le_bytes();
        lemma_auto_spec_u32_to_from_le_bytes();
        let len_bytes = spec_u64_to_le_bytes(c as u64);
        let index_bytes = spec_u32_to_le_bytes(index);
        assert(frame == len_bytes + data + index_bytes);
        assert(frame.len() == c + 12);
        assert(bytes == pre + (frame + chunk_frames(tail)));
        assert(bytes.subrange(pos, pos + 8) =~= len_bytes);
        assert(bytes.subrange(pos + 8, pos + 8 + c) =~= data);
        assert(bytes.subrange(pos + 8 + c, pos + 12 + c) =~= index_bytes);
        assert(chunk_count(n) - 1 == chunk_count(n - c));
        lemma_frames_roundtrip(pre + frame, tail);
        assert((pre + frame) + chunk_frames(tail) =~= bytes);
        assert(head + tail =~= x);
    }
}

/// The inverse transform undoes the transform, for every input.
pub proof fn theorem_bwt_roundtrip(x: Seq<u8>)
    requires
        x.len() <= u64::MAX,
    ensures
        bwt_inverse(bwt_forward(x)) == Some(x),
{
    lemma_auto_spec_u64_to_from_le_bytes();
    let count = chunk_count(x.len() as int);
    let pre = spec_u64_to_le_bytes(count as u64);
    assert(0 <= count <= x.len());
    let bytes = bwt_forward(x);
    assert(bytes.subrange(0, 8) =~= pre);
    lemma_frames_roundtrip(pre, x);
}

/// The length of the framed blocks of an input.
pub proof fn lemma_frames_len(x: Seq<u8>)
    ensures
        chunk_frames(x).len() == x.len() + 12 * chunk_count(x.len() as int),
    decreases x.len(),
{
    let n = x.len() as int;
    if n > 0 {
        let c = chunk_len(n);
        let head = x.take(c);
        theorem_chunk_roundtrip(head);
        lemma_auto_spec_u64_to_from_le_bytes();
        lemma_auto_spec_u32_to_from_le_bytes();
        lemma_frames_len(x.skip(c));
        assert(chunk_count(n) - 1 == chunk_count(n - c));
    }
}

/// The length of the transform of an input.
pub proof fn lemma_forward_len(x: Seq<u8>)
    ensures
        bwt_forward(x).len() == 8 + x.len() + 12 * chunk_count(x.len() as int),
{
    lemma_auto_spec_u64_to_from_le_bytes();
    lemma_frames_len(x);
}

/// A block of equal bytes is its own transform, with index zero.
pub proof fn lemma_constant_block(b: Seq<u8>)
    requires
        b.len() > 0,
        forall|i: int| 0 <= i < b.len() ==> #[trigger] b[i] == b[0],
    ensures
        bwt_data(b) == b,
        bwt_index(b) == 0,
{
    let rows = sorted_rotations(b);
    let rot = rotations(b);
    lemma_sorted_rows(b);
    assert forall|r: int| 0 <= r < b.len() implies #[trigger] rows[r] == b by {
        let k = rot.index_of(rows[r]);
        assert(rot.contains(rows[r]));
        assert(rot[k] == rotation(b, k));
        assert(rotation(b, k) =~= b);
    }
    assert(bwt_data(b) =~= b);
}

/// A block's transform is taken back as the block, for every block whose
/// places can be told in 32 bits.
pub proof fn theorem_chunk_decoded(b: Seq<u8>)
    requires
        b.len() <= u32::MAX,
    ensures
        chunk_decoded(bwt_data(b), bwt_index(b)) == Some(b),
{
    theorem_chunk_roundtrip(b);
}

} // verus!
