use std::cmp::Ordering;
use rayon::slice::ParallelSliceMut;
use vstd::prelude::*;
use vstd::bytes::{
    spec_u32_from_le_bytes, spec_u32_to_le_bytes, spec_u64_from_le_bytes, spec_u64_to_le_bytes,
    u32_from_le_bytes, u32_to_le_bytes, u64_from_le_bytes, u64_to_le_bytes,
};
use vstd::relations::sorted_by;
use vstd::seq_lib::lemma_sorted_unique;
use vstd::slice::{slice_subrange, slice_to_vec};
use self::order::{
    lemma_lex_first_difference, lemma_lex_reflexive, lemma_lex_total, lemma_map_multiset,
    lemma_multiset_contains, lemma_tagged_total, lex_le, lex_order, tagged_order,
};
use self::roundtrip::{lemma_first_equal, lemma_sorted_rows, lemma_table_rows};
use crate::error::CodingError;

pub mod order;
pub mod roundtrip;

verus! {

/// The block `b` turned to the right by `k` places: its last `k` bytes come first.
pub open spec fn rotation(b: Seq<u8>, k: int) -> Seq<u8> {
    b.subrange(b.len() - k, b.len() as int) + b.subrange(0, b.len() - k)
}

/// All rotations of `b`, by the number of places turned.
pub open spec fn rotations(b: Seq<u8>) -> Seq<Seq<u8>> {
    Seq::new(b.len(), |k: int| rotation(b, k))
}

/// The rotations of `b` in dictionary order.
pub open spec fn sorted_rotations(b: Seq<u8>) -> Seq<Seq<u8>> {
    rotations(b).sort_by(lex_order())
}

/// The last byte of a row.
pub open spec fn last_of() -> spec_fn(Seq<u8>) -> u8 {
    |row: Seq<u8>| row.last()
}

/// The last byte of every row.
pub open spec fn last_column(rows: Seq<Seq<u8>>) -> Seq<u8> {
    rows.map_values(last_of())
}

/// The first row at or after `from` that equals `b`; zero when there is none.
pub open spec fn first_equal(rows: Seq<Seq<u8>>, b: Seq<u8>, from: int) -> int
    decreases rows.len() - from,
{
    if from >= rows.len() {
        0
    } else if rows[from] == b {
        from
    } else {
        first_equal(rows, b, from + 1)
    }
}

/// The transformed block: the last column of the sorted rotations of `b`.
pub open spec fn bwt_data(b: Seq<u8>) -> Seq<u8> {
    last_column(sorted_rotations(b))
}

/// The row of the sorted rotations at which `b` itself first stands.
pub open spec fn bwt_index(b: Seq<u8>) -> int {
    first_equal(sorted_rotations(b), b, 0)
}

/// Every byte of `l` with its place.
pub open spec fn tagged(l: Seq<u8>) -> Seq<(u8, int)> {
    Seq::new(l.len(), |i: int| (l[i], i))
}

/// The bytes of `l` in order, equal bytes by their place, each with its place in `l`.
pub open spec fn lf_table(l: Seq<u8>) -> Seq<(u8, int)> {
    tagged(l).sort_by(tagged_order())
}

/// The bytes met on `steps` steps through the table `t` from row `idx`: each
/// step gives the byte of the row and goes on to the row's place.
pub open spec fn walk(t: Seq<(u8, int)>, idx: int, steps: nat) -> Seq<u8>
    decreases steps,
{
    if steps == 0 {
        Seq::<u8>::empty()
    } else {
        seq![t[idx].0] + walk(t, t[idx].1, (steps - 1) as nat)
    }
}

/// The block whose transform is `l` with index `index`.
pub open spec fn bwt_inverse_chunk(l: Seq<u8>, index: int) -> Seq<u8> {
    walk(lf_table(l), index, l.len())
}

/// The size of the blocks that the input is cut into.
pub const CHUNK_SIZE: u32 = 0x10_0000;

/// What the transformed block `l` with index `index` stands for; `None` where
/// the index is not a place of the data, or the data is longer than a place
/// can be told in 32 bits. A block without data is taken back as the empty
/// block, whatever its index.
pub open spec fn chunk_decoded(l: Seq<u8>, index: int) -> Option<Seq<u8>> {
    if l.len() > u32::MAX || (l.len() >= 1 && index >= l.len()) {
        None
    } else {
        Some(bwt_inverse_chunk(l, index))
    }
}

/// A transformed block on the wire: the length of its data in eight bytes, the
/// data, and the index in four bytes, the numbers with their low bytes first.
pub open spec fn chunk_frame(data: Seq<u8>, index: u32) -> Seq<u8> {
    spec_u64_to_le_bytes(data.len() as u64) + data + spec_u32_to_le_bytes(index)
}

/// The length of the first block of an input of `n` bytes.
pub open spec fn chunk_len(n: int) -> int {
    if n < CHUNK_SIZE {
        n
    } else {
        CHUNK_SIZE as int
    }
}

/// The number of blocks that an input of `n` bytes is cut into.
pub open spec fn chunk_count(n: int) -> int {
    (n + CHUNK_SIZE - 1) / (CHUNK_SIZE as int)
}

/// The blocks of `x`, each transformed and framed, one after the other.
pub open spec fn chunk_frames(x: Seq<u8>) -> Seq<u8>
    decreases x.len(),
{
    if x.len() == 0 {
        Seq::<u8>::empty()
    } else {
        let head = x.take(chunk_len(x.len() as int));
        chunk_frame(bwt_data(head), bwt_index(head) as u32) + chunk_frames(
            x.skip(chunk_len(x.len() as int)),
        )
    }
}

/// The transform of `x`: the number of its blocks in eight bytes, low byte
/// first, then the framed blocks.
pub open spec fn bwt_forward(x: Seq<u8>) -> Seq<u8> {
    spec_u64_to_le_bytes(chunk_count(x.len() as int) as u64) + chunk_frames(x)
}

/// What `count` framed blocks from place `pos` of `bytes` on stand for; `None`
/// where a frame is cut short, longer than a block can be, or has an index
/// that is not a place of its data (as every index of a block without data).
pub open spec fn parse_chunks(bytes: Seq<u8>, pos: int, count: nat) -> Option<Seq<u8>>
    decreases count,
{
    if count == 0 {
        Some(Seq::<u8>::empty())
    } else if pos + 8 > bytes.len() {
        None
    } else {
        let len = spec_u64_from_le_bytes(bytes.subrange(pos, pos + 8)) as int;
        if len > u32::MAX || pos + 12 + len > bytes.len() {
            None
        } else {
            let data = bytes.subrange(pos + 8, pos + 8 + len);
            let index = spec_u32_from_le_bytes(bytes.subrange(pos + 8 + len, pos + 12 + len));
            if index >= len {
                None
            } else {
                match parse_chunks(bytes, pos + 12 + len, (count - 1) as nat) {
                    Some(rest) => Some(bwt_inverse_chunk(data, index as int) + rest),
                    None => None,
                }
            }
        }
    }
}

/// What transformed bytes stand for; `None` where they are no transform.
pub open spec fn bwt_inverse(bytes: Seq<u8>) -> Option<Seq<u8>> {
    if bytes.len() < 8 {
        None
    } else {
        parse_chunks(bytes, 8, spec_u64_from_le_bytes(bytes.subrange(0, 8)) as nat)
    }
}

/// `r` with `done` in front of it.
pub open spec fn after(done: Seq<u8>, r: Option<Seq<u8>>) -> Option<Seq<u8>> {
    match r {
        Some(rest) => Some(done + rest),
        None => None,
    }
}

/// Cuts `data` into blocks, transforms each and frames the results.
pub fn apply(data: &[u8]) -> (out: Vec<u8>)
    ensures
        out@ == bwt_forward(data@),
{
    let len: usize = data.len();
    let chunk_size: usize = CHUNK_SIZE as usize;
    let count: usize = if len == 0 {
        0
    } else {
        (len - 1) / chunk_size + 1
    };

    // Create chunks and encode them
    let mut out: Vec<u8> = u64_to_le_bytes(count as u64);
    let mut pos: usize = 0;
    proof {
        assert(data@.skip(0) =~= data@);
    }
    while pos < len
        invariant
            len == data@.len(),
            chunk_size == CHUNK_SIZE,
            pos <= len,
            out@ + chunk_frames(data@.skip(pos as int)) == bwt_forward(data@),
        decreases len - pos,
    {
        let ghost done = out@;
        let ghost rest = data@.skip(pos as int);
        let end: usize = if len - pos > chunk_size {
            pos + chunk_size
        } else {
            len
        };
        let chunk = BWTChunk::encode(slice_subrange(data, pos, end));
        proof {
            assert(data@.subrange(pos as int, end as int) =~= rest.take(
                chunk_len(rest.len() as int),
            ));
            assert(rest.skip(chunk_len(rest.len() as int)) =~= data@.skip(end as int));
            self::roundtrip::theorem_chunk_roundtrip(rest.take(chunk_len(rest.len() as int)));
        }
        let BWTChunk { data: mut chunk_data, index } = chunk;
        let ghost framed = chunk_frame(chunk_data@, index);
        let mut head: Vec<u8> = u64_to_le_bytes(chunk_data.len() as u64);
        let mut tail: Vec<u8> = u32_to_le_bytes(index);
        out.append(&mut head);
        out.append(&mut chunk_data);
        out.append(&mut tail);
        proof {
            assert(out@ =~= done + framed);
            assert(done + (framed + chunk_frames(data@.skip(end as int))) =~= out@ + chunk_frames(
                data@.skip(end as int),
            ));
        }
        pos = end;
    }
    proof {
        assert(out@ + Seq::<u8>::empty() =~= out@);
    }
    out
}

/// Reads the framed blocks of `data` and takes each back.
///
/// Fails where `data` is not a transform: a frame is cut short, longer than a
/// block can be, or has an index outside its data.
pub fn reduce(data: &[u8]) -> (r: Result<Vec<u8>, CodingError>)
    ensures
        match bwt_inverse(data@) {
            Some(bytes) => r matches Ok(v) && v@ == bytes,
            None => r == Err::<Vec<u8>, CodingError>(CodingError::CorruptInput),
        },
{
    let total: usize = data.len();
    if total < 8 {
        return Err(CodingError::CorruptInput);
    }
    let count: u64 = u64_from_le_bytes(slice_subrange(data, 0, 8));
    let mut out: Vec<u8> = Vec::new();
    let mut pos: usize = 8;
    let mut left: u64 = count;
    proof {
        let r = parse_chunks(data@, 8, count as nat);
        if r is Some {
            assert(out@ + r.unwrap() =~= r.unwrap());
        }
    }
    while left > 0
        invariant
            total == data@.len(),
            8 <= pos <= total,
            bwt_inverse(data@) == after(out@, parse_chunks(data@, pos as int, left as nat)),
        decreases left,
    {
        let ghost done = out@;
        if total - pos < 8 {
            return Err(CodingError::CorruptInput);
        }
        let len: u64 = u64_from_le_bytes(slice_subrange(data, pos, pos + 8));
        if len > u32::MAX as u64 || len > (total - pos - 8) as u64 {
            return Err(CodingError::CorruptInput);
        }
        let len: usize = len as usize;
        if total - pos - 8 - len < 4 {
            return Err(CodingError::CorruptInput);
        }
        let start: usize = pos + 8;
        let index: u32 = u32_from_le_bytes(slice_subrange(data, start + len, start + len + 4));
        if index as usize >= len {
            return Err(CodingError::CorruptInput);
        }
        let chunk = BWTChunk {
            data: slice_to_vec(slice_subrange(data, start, start + len)),
            index,
        };
        let mut decoded: Vec<u8> = match chunk.decode() {
            Ok(block) => block,
            Err(e) => {
                return Err(e);
            },
        };
        let ghost block = decoded@;
        out.append(&mut decoded);
        pos = start + len + 4;
        left = left - 1;
        proof {
            let r = parse_chunks(data@, pos as int, left as nat);
            if r is Some {
                assert(done + (block + r.unwrap()) =~= out@ + r.unwrap());
            }
        }
    }
    proof {
        assert(out@ + Seq::<u8>::empty() =~= out@);
    }
    Ok(out)
}

/// A byte of a transformed block with the place it stands at.
pub struct BWTReconstructData {
    pub position: u32,
    pub char: u8,
}

/// A transformed block: the last column of its sorted rotations, and the row
/// at which the block itself stands.
pub struct BWTChunk {
    pub data: Vec<u8>,
    pub index: u32,
}

/// A rotation of a block: the block, and the number of places it is turned to
/// the right.
pub struct Permutation<'a> {
    pub data: &'a [u8],
    pub index: u32,
}

/// The rotation that a `Permutation` stands for.
pub open spec fn row_of_permutation<'a>() -> spec_fn(Permutation<'a>) -> Seq<u8> {
    |p: Permutation<'a>| p.row()
}

/// The byte and place of a table row.
pub open spec fn tag_of() -> spec_fn(BWTReconstructData) -> (u8, int) {
    |r: BWTReconstructData| (r.char, r.position as int)
}

/// Two rows of one length that first differ at `k`, the first being smaller
/// there, are in dictionary order and not equal.
proof fn lemma_rows_differ(a: Seq<u8>, b: Seq<u8>, k: usize)
    requires
        a.len() == b.len(),
        k < a.len(),
        forall|j: int| 0 <= j < k ==> a[j] == b[j],
        a[k as int] < b[k as int],
    ensures
        lex_le(a, b),
        !lex_le(b, a),
        a != b,
{
    lemma_lex_first_difference(a, b, k as int);
    lemma_lex_reflexive(a);
}

impl<'a> Permutation<'a> {
    /// The rotation as a sequence of bytes.
    pub open spec fn row(&self) -> Seq<u8> {
        rotation(self.data@, self.index as int)
    }

    /// The rotation turns the block by less than its length.
    pub open spec fn wf(&self) -> bool {
        self.index < self.data@.len()
    }

    /// The rotation of `data` by `index` places to the right.
    pub fn new(data: &'a [u8], index: u32) -> (p: Self)
        ensures
            p.data@ == data@,
            p.index == index,
    {
        Permutation { data, index }
    }

    /// The byte at place `idx` of the rotation.
    pub fn index(&self, idx: usize) -> (r: u8)
        requires
            self.wf(),
            idx < self.data@.len(),
        ensures
            r == self.row()[idx as int],
    {
        let len: usize = self.data.len();
        let turned: usize = self.index as usize;
        if idx < turned {
            self.data[len - turned + idx]
        } else {
            self.data[idx - turned]
        }
    }

    /// Compares two rotations of one block in dictionary order; rotations that
    /// read the same are equal.
    pub fn compare(&self, other: &Permutation<'a>) -> (o: Ordering)
        requires
            self.wf(),
            other.wf(),
            self.data@ == other.data@,
        ensures
            (o is Less) == (lex_le(self.row(), other.row()) && self.row() != other.row()),
            (o is Equal) == (self.row() == other.row()),
            (o is Greater) == (lex_le(other.row(), self.row()) && self.row() != other.row()),
    {
        if self.index != other.index {
            let mut i: usize = 0;
            while i < self.data.len()
                invariant
                    self.wf(),
                    other.wf(),
                    self.data@ == other.data@,
                    i <= self.data@.len(),
                    forall|j: int| 0 <= j < i ==> self.row()[j] == other.row()[j],
                decreases self.data@.len() - i,
            {
                let a: u8 = self.index(i);
                let b: u8 = other.index(i);
                if a < b {
                    proof {
                        lemma_rows_differ(self.row(), other.row(), i);
                    }
                    return Ordering::Less;
                }
                if a > b {
                    proof {
                        lemma_rows_differ(other.row(), self.row(), i);
                    }
                    return Ordering::Greater;
                }
                i = i + 1;
            }
            proof {
                assert(self.row() =~= other.row());
            }
        }
        Ordering::Equal
    }
}

/// rayon's `par_sort_by` with `Permutation::compare`: a stable sort. The rows
/// come out as a rearrangement of what went in, in dictionary order, and rows
/// that read the same keep the order they went in with, which is that of
/// their `index` when they went in by `index`.
#[verifier::external_body]
fn sort_rotations<'a>(rows: &mut Vec<Permutation<'a>>)
    requires
        forall|i: int|
            0 <= i < old(rows)@.len() ==> (#[trigger] old(rows)@[i]).wf() && old(rows)@[i].index
                == i && old(rows)@[i].data@ == old(rows)@[0].data@,
    ensures
        final(rows)@.to_multiset() == old(rows)@.to_multiset(),
        forall|i: int, j: int|
            0 <= i < j < final(rows)@.len() ==> lex_le(
                #[trigger] final(rows)@[i].row(),
                #[trigger] final(rows)@[j].row(),
            ),
        forall|i: int, j: int|
            0 <= i < j < final(rows)@.len() && #[trigger] final(rows)@[i].row()
                == #[trigger] final(rows)@[j].row() ==> final(rows)@[i].index
                < final(rows)@[j].index,
{
    rows.par_sort_by(|a, b| a.compare(b));
}

/// rayon's `par_sort_by_key` by the byte of each row: a stable sort. The rows
/// come out as a rearrangement of what went in, in the order of their bytes,
/// and rows with the same byte keep the order they went in with, which is
/// that of their `position` when they went in by `position`.
#[verifier::external_body]
fn sort_table(table: &mut Vec<BWTReconstructData>)
    requires
        forall|i: int| 0 <= i < old(table)@.len() ==> (#[trigger] old(table)@[i]).position == i,
    ensures
        final(table)@.to_multiset() == old(table)@.to_multiset(),
        forall|i: int, j: int|
            0 <= i < j < final(table)@.len() ==> (#[trigger] final(table)@[i]).char <= (
            #[trigger] final(table)@[j]).char,
        forall|i: int, j: int|
            0 <= i < j < final(table)@.len() && (#[trigger] final(table)@[i]).char == (
            #[trigger] final(table)@[j]).char ==> final(table)@[i].position
                < final(table)@[j].position,
{
    table.par_sort_by_key(|row| row.char);
}

impl BWTChunk {
    /// Transforms a block: sorts its rotations and keeps their last column and
    /// the row at which the block itself stands.
    pub fn encode(data: &[u8]) -> (chunk: Self)
        requires
            data@.len() <= u32::MAX,
        ensures
            chunk.data@ == bwt_data(data@),
            chunk.index == bwt_index(data@),
    {
        let len: usize = data.len();
        let ghost b = data@;

        // Create permutations table
        let mut permutations: Vec<Permutation> = Vec::with_capacity(len);
        let mut i: usize = 0;
        while i < len
            invariant
                len == b.len(),
                len <= u32::MAX,
                b == data@,
                i <= len,
                permutations@.len() == i,
                forall|k: int|
                    0 <= k < i ==> (#[trigger] permutations@[k]).index == k
                        && permutations@[k].data@ == b,
            decreases len - i,
        {
            permutations.push(Permutation::new(data, i as u32));
            i = i + 1;
        }
        let ghost built = permutations@;
        proof {
            assert(built.map_values(row_of_permutation()) =~= rotations(b));
        }

        sort_rotations(&mut permutations);

        let ghost sorted = permutations@;
        let ghost rows = sorted.map_values(row_of_permutation());
        proof {
            lemma_map_multiset(sorted, built, row_of_permutation());
            lemma_sorted_rows(b);
            lemma_lex_total();
            assert(sorted_by(rows, lex_order())) by {
                assert forall|x: int, y: int|
                    0 <= x < y < rows.len() implies #[trigger] lex_order()(rows[x], rows[y]) by {
                    assert(lex_le(sorted[x].row(), sorted[y].row()));
                }
            }
            lemma_sorted_unique(rows, sorted_rotations(b), lex_order());
            assert(rows == sorted_rotations(b));
            vstd::seq_lib::to_multiset_len(sorted);
            vstd::seq_lib::to_multiset_len(built);
            assert forall|r: int| 0 <= r < len implies (#[trigger] sorted[r]).data@ == b
                && sorted[r].index < len by {
                lemma_multiset_contains(sorted, built, r);
                let k = built.index_of(sorted[r]);
                assert(built[k] == sorted[r]);
            }
        }

        // Create encoded data by using the last element in each row
        let mut index: usize = 0;
        proof {
            if len > 0 {
                lemma_multiset_contains(built, sorted, 0);
                let at = sorted.index_of(built[0]);
                assert(sorted[at].index == 0);
            }
        }
        while index < len && permutations[index].index != 0
            invariant
                len == b.len(),
                sorted == permutations@,
                sorted.len() == len,
                index <= len,
                forall|q: int| 0 <= q < index ==> (#[trigger] sorted[q]).index != 0,
                len > 0 ==> exists|at: int| 0 <= at < len && (#[trigger] sorted[at]).index == 0,
            decreases len - index,
        {
            index = index + 1;
        }
        let mut out: Vec<u8> = Vec::with_capacity(len);
        let mut r: usize = 0;
        while r < len
            invariant
                len == b.len(),
                b == data@,
                sorted == permutations@,
                sorted.len() == len,
                rows == sorted.map_values(row_of_permutation()),
                forall|q: int|
                    0 <= q < len ==> (#[trigger] sorted[q]).data@ == b && sorted[q].index < len,
                r <= len,
                out@ == last_column(rows).take(r as int),
            decreases len - r,
        {
            assert(sorted[r as int].wf());
            let byte: u8 = permutations[r].index(len - 1);
            out.push(byte);
            proof {
                assert(rows[r as int] == sorted[r as int].row());
                assert(rows[r as int].len() == len);
                assert(out@ =~= last_column(rows).take(r + 1));
            }
            r = r + 1;
        }
        proof {
            assert(last_column(rows).take(len as int) =~= last_column(rows));
            if len > 0 {
                let at = choose|at: int| 0 <= at < len && (#[trigger] sorted[at]).index == 0;
                assert(index <= at);
                assert(sorted[index as int].index == 0);
                assert(rows[index as int] == sorted[index as int].row());
                assert(rotation(b, 0) =~= b);
                lemma_first_equal(rows, b, 0, index as int);
                let first = first_equal(rows, b, 0);
                if first < index {
                    assert(rows[first] == sorted[first].row());
                    assert(sorted[first].row() == sorted[index as int].row());
                    assert(sorted[first].index < sorted[index as int].index);
                }
            }
        }
        BWTChunk { data: out, index: index as u32 }
    }

    /// Takes a transformed block back: sorts the column's bytes, keeping with
    /// each the place it came from, and walks from row `index` through the
    /// places.
    ///
    /// Fails where the index is not a place of the data.
    pub fn decode(self) -> (r: Result<Vec<u8>, CodingError>)
        ensures
            match chunk_decoded(self.data@, self.index as int) {
                Some(bytes) => r matches Ok(v) && v@ == bytes,
                None => r == Err::<Vec<u8>, CodingError>(CodingError::CorruptInput),
            },
    {
        let len: usize = self.data.len();
        let ghost l = self.data@;
        if len > u32::MAX as usize || (len >= 1 && self.index as usize >= len) {
            return Err(CodingError::CorruptInput);
        }

        // Save all characters with along with position
        let mut table: Vec<BWTReconstructData> = Vec::with_capacity(len);
        let mut i: usize = 0;
        while i < len
            invariant
                len == l.len(),
                len <= u32::MAX,
                l == self.data@,
                i <= len,
                table@.len() == i,
                forall|k: int|
                    0 <= k < i ==> (#[trigger] table@[k]).position == k && table@[k].char == l[k],
            decreases len - i,
        {
            table.push(BWTReconstructData { position: i as u32, char: self.data[i] });
            i = i + 1;
        }
        let ghost built = table@;
        proof {
            assert(built.map_values(tag_of()) =~= tagged(l));
        }

        sort_table(&mut table);

        let ghost t = lf_table(l);
        proof {
            let tags = table@.map_values(tag_of());
            lemma_map_multiset(table@, built, tag_of());
            lemma_table_rows(l);
            lemma_tagged_total();
            assert(sorted_by(tags, tagged_order())) by {
                assert forall|x: int, y: int|
                    0 <= x < y < tags.len() implies #[trigger] tagged_order()(tags[x], tags[y]) by {
                    assert(table@[x].char <= table@[y].char);
                }
            }
            lemma_sorted_unique(tags, t, tagged_order());
            assert(tags == t);
            assert forall|k: int| 0 <= k < len implies (#[trigger] table@[k]).char == t[k].0
                && table@[k].position == t[k].1 by {
                assert(tags[k] == tag_of()(table@[k]));
            }
        }

        // Build decoded content
        let mut decoded: Vec<u8> = Vec::with_capacity(len);
        let mut idx: usize = self.index as usize;
        let mut step: usize = 0;
        proof {
            assert(decoded@ + walk(t, idx as int, len as nat) =~= walk(t, idx as int, len as nat));
        }
        while step < len
            invariant
                len == l.len(),
                t == lf_table(l),
                table@.len() == len,
                forall|k: int|
                    0 <= k < len ==> (#[trigger] table@[k]).char == t[k].0 && table@[k].position
                        == t[k].1,
                step <= len,
                len > 0 ==> idx < len,
                decoded@ + walk(t, idx as int, (len - step) as nat) == walk(
                    t,
                    self.index as int,
                    len as nat,
                ),
            decreases len - step,
        {
            let ghost done = decoded@;
            let ghost from = idx;
            proof {
                lemma_table_rows(l);
            }
            decoded.push(table[idx].char);
            idx = table[idx].position as usize;
            step = step + 1;
            proof {
                let rest = walk(t, idx as int, (len - step) as nat);
                assert(done + (seq![t[from as int].0] + rest) =~= decoded@ + rest);
            }
        }
        proof {
            assert(decoded@ + Seq::<u8>::empty() =~= decoded@);
        }
        Ok(decoded)
    }
}

} // verus!
