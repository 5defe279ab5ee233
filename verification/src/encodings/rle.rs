use varuint::{Deserializable, Serializable, Varint};
use vstd::prelude::*;
use vstd::slice::slice_subrange;
use crate::error::CodingError;

verus! {

/// A count in its variable-length form: small counts take one byte, larger
/// ones a leading byte that tells how many follow.
pub open spec fn varint_bytes(v: u32) -> Seq<u8> {
    if v <= 240 {
        seq![v as u8]
    } else if v <= 2031 {
        seq![((v - 240) / 256 + 241) as u8, ((v - 240) % 256) as u8]
    } else if v <= 67567 {
        seq![248u8, ((v - 2032) / 256) as u8, ((v - 2032) % 256) as u8]
    } else if v <= 16_777_215 {
        seq![249u8, (v % 256) as u8, ((v / 256) % 256) as u8, ((v / 65536) % 256) as u8]
    } else {
        seq![
            250u8,
            (v % 256) as u8,
            ((v / 256) % 256) as u8,
            ((v / 65536) % 256) as u8,
            ((v / 16777216) % 256) as u8,
        ]
    }
}

/// The count that stands at the start of `bytes` in variable-length form, and
/// the number of bytes it takes; `None` where the bytes end too early or the
/// leading byte announces more than a 32-bit count.
pub open spec fn varint_value(bytes: Seq<u8>) -> Option<(u32, nat)> {
    if bytes.len() == 0 {
        None
    } else if bytes[0] <= 240 {
        Some((bytes[0] as u32, 1))
    } else if bytes[0] <= 247 {
        if bytes.len() < 2 {
            None
        } else {
            Some(((240 + 256 * (bytes[0] - 241) + bytes[1]) as u32, 2))
        }
    } else if bytes[0] == 248 {
        if bytes.len() < 3 {
            None
        } else {
            Some(((2032 + 256 * bytes[1] + bytes[2]) as u32, 3))
        }
    } else if bytes[0] == 249 {
        if bytes.len() < 4 {
            None
        } else {
            Some(((bytes[1] + 256 * bytes[2] + 65536 * bytes[3]) as u32, 4))
        }
    } else if bytes[0] == 250 {
        if bytes.len() < 5 {
            None
        } else {
            Some(
                ((bytes[1] + 256 * bytes[2] + 65536 * bytes[3] + 16777216 * bytes[4]) as u32, 5),
            )
        }
    } else {
        None
    }
}

/// A count in variable-length form is read back as the count, whatever follows it.
pub proof fn lemma_varint_roundtrip(v: u32, tail: Seq<u8>)
    ensures
        varint_value(varint_bytes(v) + tail) == Some((v, varint_bytes(v).len())),
        1 <= varint_bytes(v).len() <= 5,
{
    let bytes = varint_bytes(v) + tail;
    if v <= 240 {
        assert(bytes[0] == v as u8);
    } else if v <= 2031 {
        assert(bytes[0] == ((v - 240) / 256 + 241) as u8);
        assert(bytes[1] == ((v - 240) % 256) as u8);
    } else if v <= 67567 {
        assert(bytes[0] == 248);
        assert(bytes[1] == ((v - 2032) / 256) as u8);
        assert(bytes[2] == ((v - 2032) % 256) as u8);
    } else if v <= 16_777_215 {
        assert(bytes[0] == 249);
        assert(bytes[1] == (v % 256) as u8);
        assert(bytes[2] == ((v / 256) % 256) as u8);
        assert(bytes[3] == ((v / 65536) % 256) as u8);
    } else {
        assert(bytes[0] == 250);
        assert(bytes[1] == (v % 256) as u8);
        assert(bytes[2] == ((v / 256) % 256) as u8);
        assert(bytes[3] == ((v / 65536) % 256) as u8);
        assert(bytes[4] == ((v / 16777216) % 256) as u8);
    }
}

/// The length of the run of equal bytes that `x` starts with.
pub open spec fn run_len(x: Seq<u8>) -> nat
    decreases x.len(),
{
    if x.len() <= 1 {
        x.len()
    } else if x[1] == x[0] {
        1 + run_len(x.skip(1))
    } else {
        1
    }
}

/// `n` copies of `b`.
pub open spec fn copies(b: u8, n: nat) -> Seq<u8> {
    Seq::new(n, |i: int| b)
}

/// The runs of `x`, each as its length in variable-length form and its byte.
pub open spec fn rle_forward(x: Seq<u8>) -> Seq<u8>
    decreases x.len(),
    via rle_forward_decreases
{
    if x.len() == 0 {
        Seq::<u8>::empty()
    } else {
        varint_bytes(run_len(x) as u32) + seq![x[0]] + rle_forward(x.skip(run_len(x) as int))
    }
}

#[via_fn]
proof fn rle_forward_decreases(x: Seq<u8>) {
    if x.len() > 0 {
        lemma_run_bounds(x);
    }
}

/// A run is at least one byte long and no longer than the sequence.
pub proof fn lemma_run_bounds(x: Seq<u8>)
    requires
        x.len() > 0,
    ensures
        1 <= run_len(x) <= x.len(),
    decreases x.len(),
{
    if x.len() > 1 && x[1] == x[0] {
        lemma_run_bounds(x.skip(1));
    }
}

/// The bytes whose runs `bytes` lists; reading stops at the first run that is
/// not whole.
pub open spec fn rle_inverse(bytes: Seq<u8>) -> Seq<u8>
    decreases bytes.len(),
{
    match varint_value(bytes) {
        Some((count, n)) => if bytes.len() > n {
            copies(bytes[n as int], count as nat) + rle_inverse(bytes.skip(n as int + 1))
        } else {
            Seq::<u8>::empty()
        },
        None => Seq::<u8>::empty(),
    }
}

/// A sequence whose first `k` bytes are equal and whose next byte, if any,
/// differs starts with a run of `k`.
pub proof fn lemma_run_len(x: Seq<u8>, k: int)
    requires
        1 <= k <= x.len(),
        forall|i: int| 0 <= i < k ==> #[trigger] x[i] == x[0],
        k < x.len() ==> x[k] != x[0],
    ensures
        run_len(x) == k,
    decreases k,
{
    if k > 1 {
        lemma_run_len(x.skip(1), k - 1);
    }
}

/// The run that a sequence starts with is made of its first byte.
pub proof fn lemma_run_is_equal(x: Seq<u8>)
    requires
        x.len() > 0,
    ensures
        1 <= run_len(x) <= x.len(),
        x.take(run_len(x) as int) == copies(x[0], run_len(x)),
    decreases x.len(),
{
    if x.len() > 1 && x[1] == x[0] {
        lemma_run_is_equal(x.skip(1));
        let n = run_len(x);
        assert forall|i: int| 0 <= i < n implies x.take(n as int)[i] == x[0] by {
            if i > 0 {
                assert(x.skip(1).take(n - 1)[i - 1] == x[0]);
            }
        }
    }
    assert(x.take(run_len(x) as int) =~= copies(x[0], run_len(x)));
}

/// Reading the runs of an input gives back the input.
pub proof fn theorem_rle_roundtrip(x: Seq<u8>)
    requires
        x.len() <= u32::MAX,
    ensures
        rle_inverse(rle_forward(x)) == x,
    decreases x.len(),
{
    if x.len() == 0 {
        assert(x =~= Seq::<u8>::empty());
    } else {
        let n = run_len(x);
        lemma_run_is_equal(x);
        let rest = rle_forward(x.skip(n as int));
        let tail = seq![x[0]] + rest;
        let head = varint_bytes(n as u32);
        let bytes = rle_forward(x);
        lemma_varint_roundtrip(n as u32, tail);
        assert(bytes =~= head + tail);
        let size = head.len();
        assert(bytes[size as int] == x[0]);
        assert(bytes.skip(size as int + 1) =~= rest);
        theorem_rle_roundtrip(x.skip(n as int));
        assert(x.take(n as int) + x.skip(n as int) =~= x);
    }
}

/// varuint's `serialize` of a `Varint<u32>` into a byte vector: the count is
/// appended in variable-length form. Writing fails only where the sink
/// refuses bytes, and a byte vector takes every byte.
#[verifier::external_body]
fn varint_write(count: u32, out: &mut Vec<u8>) -> (r: Result<usize, std::io::Error>)
    ensures
        r is Ok,
        final(out)@ == old(out)@ + varint_bytes(count),
{
    Varint(count).serialize(out)
}

/// varuint's `deserialize` of a `Varint<u32>` from the start of a byte slice:
/// the count and the number of bytes read, or an error where no whole count of
/// at most 32 bits stands there.
#[verifier::external_body]
fn varint_read(data: &[u8]) -> (r: Result<(u32, usize), std::io::Error>)
    ensures
        match varint_value(data@) {
            Some((count, size)) => r matches Ok(found) && found.0 == count && found.1 == size,
            None => r is Err,
        },
{
    let mut cursor = std::io::Cursor::new(data);
    let count = Varint::<u32>::deserialize(&mut cursor)?;
    Ok((count.0, cursor.position() as usize))
}

/// A run: a byte and how often it is repeated.
pub struct RLEPair {
    pub count: u32,
    pub symbol: u8,
}

impl RLEPair {
    /// A run of `count` times `symbol`.
    pub fn new(count: usize, symbol: u8) -> (p: Self)
        requires
            count <= u32::MAX,
        ensures
            p.count == count,
            p.symbol == symbol,
    {
        RLEPair { count: count as u32, symbol }
    }

    /// Makes the run one longer.
    pub fn increment(&mut self)
        requires
            old(self).count < u32::MAX,
        ensures
            final(self).count == old(self).count + 1,
            final(self).symbol == old(self).symbol,
    {
        self.count = self.count + 1;
    }

    /// Appends the run to `writer`: its length in variable-length form, then its byte.
    pub fn serialize(&self, writer: &mut Vec<u8>) -> (r: Result<(), CodingError>)
        ensures
            r is Ok,
            final(writer)@ == old(writer)@ + varint_bytes(self.count) + seq![self.symbol],
    {
        match varint_write(self.count, writer) {
            Ok(_) => {},
            Err(_) => {
                return Err(CodingError::Io);
            },
        }
        writer.push(self.symbol);
        proof {
            assert(writer@ =~= old(writer)@ + varint_bytes(self.count) + seq![self.symbol]);
        }
        Ok(())
    }

    /// Reads the run that stands at the start of `reader`, and says how many
    /// bytes it takes; fails where no whole run stands there.
    pub fn deserialize(reader: &[u8]) -> (r: Result<(Self, usize), CodingError>)
        ensures
            match varint_value(reader@) {
                Some((count, size)) => if reader@.len() > size {
                    r matches Ok(found) && found.0.count == count && found.0.symbol
                        == reader@[size as int] && found.1 == size + 1
                } else {
                    r == Err::<(Self, usize), CodingError>(CodingError::CorruptInput)
                },
                None => r == Err::<(Self, usize), CodingError>(CodingError::CorruptInput),
            },
    {
        let (count, size) = match varint_read(reader) {
            Ok(found) => found,
            Err(_) => {
                return Err(CodingError::CorruptInput);
            },
        };
        if reader.len() <= size {
            return Err(CodingError::CorruptInput);
        }
        let symbol: u8 = reader[size];
        Ok((RLEPair { count, symbol }, size + 1))
    }
}

/// Replaces every run of equal bytes by its length and the byte.
pub fn apply(data: &[u8]) -> (r: Result<Vec<u8>, CodingError>)
    requires
        0 < data@.len() <= u32::MAX,
    ensures
        r matches Ok(bytes) && bytes@ == rle_forward(data@),
{
    let len: usize = data.len();
    let mut writer: Vec<u8> = Vec::with_capacity(data.len());
    let mut pair = RLEPair::new(1, data[0]);
    let ghost mut start: int = 0;
    proof {
        assert(data@.skip(0) =~= data@);
        assert(writer@ + rle_forward(data@) =~= rle_forward(data@));
    }

    let mut i: usize = 1;
    while i < len
        invariant
            len == data@.len(),
            len <= u32::MAX,
            0 <= start < i <= len,
            pair.count == i - start,
            pair.symbol == data@[start],
            forall|j: int| start <= j < i ==> #[trigger] data@[j] == data@[start],
            writer@ + rle_forward(data@.skip(start)) == rle_forward(data@),
        decreases len - i,
    {
        let symbol: u8 = data[i];
        if pair.symbol == symbol {
            // Increment counter if symbol is the same
            pair.increment();
        } else {
            // Serialize current pair and create new one
            let ghost done = writer@;
            let ghost run = data@.skip(start);
            pair.serialize(&mut writer)?;
            proof {
                lemma_run_len(run, i - start);
                assert(run.skip(i - start) =~= data@.skip(i as int));
                assert(done + (varint_bytes(pair.count) + seq![pair.symbol] + rle_forward(
                    data@.skip(i as int),
                )) =~= writer@ + rle_forward(data@.skip(i as int)));
                start = i as int;
            }
            pair = RLEPair::new(1, symbol);
        }
        i = i + 1;
    }
    let ghost done = writer@;
    let ghost run = data@.skip(start);
    pair.serialize(&mut writer)?;
    proof {
        lemma_run_len(run, len - start);
        assert(run.skip(len - start) =~= Seq::<u8>::empty());
        assert(rle_forward(Seq::<u8>::empty()) =~= Seq::<u8>::empty());
        assert(run[0] == pair.symbol);
        assert(rle_forward(run) == varint_bytes(pair.count) + seq![pair.symbol] + rle_forward(
            run.skip(len - start),
        ));
        assert(done + (varint_bytes(pair.count) + seq![pair.symbol] + Seq::<u8>::empty())
            =~= writer@);
    }
    Ok(writer)
}

/// Writes out every run that `data` lists, up to the first that is not whole.
pub fn reduce(data: &[u8]) -> (decoded: Vec<u8>)
    ensures
        decoded@ == rle_inverse(data@),
{
    let len: usize = data.len();
    let mut decoded: Vec<u8> = Vec::with_capacity(data.len());
    let mut pos: usize = 0;
    proof {
        assert(data@.skip(0) =~= data@);
        assert(decoded@ + rle_inverse(data@) =~= rle_inverse(data@));
    }
    while pos < len
        invariant
            len == data@.len(),
            pos <= len,
            decoded@ + rle_inverse(data@.skip(pos as int)) == rle_inverse(data@),
        decreases len - pos,
    {
        let ghost done = decoded@;
        let ghost rest = data@.skip(pos as int);
        let (pair, size) = match RLEPair::deserialize(slice_subrange(data, pos, len)) {
            Ok(found) => found,
            Err(_) => {
                proof {
                    assert(data@.subrange(pos as int, len as int) =~= rest);
                    assert(done + Seq::<u8>::empty() =~= done);
                }
                return decoded;
            },
        };
        proof {
            assert(data@.subrange(pos as int, len as int) =~= rest);
            assert(rest.skip(size as int) =~= data@.skip(pos + size));
        }
        let mut k: u32 = 0;
        while k < pair.count
            invariant
                k <= pair.count,
                decoded@ == done + copies(pair.symbol, k as nat),
            decreases pair.count - k,
        {
            decoded.push(pair.symbol);
            k = k + 1;
            assert(decoded@ =~= done + copies(pair.symbol, k as nat));
        }
        proof {
            let tail = rle_inverse(data@.skip(pos + size));
            assert(done + (copies(pair.symbol, pair.count as nat) + tail) =~= decoded@ + tail);
        }
        pos = pos + size;
    }
    proof {
        assert(data@.skip(pos as int) =~= Seq::<u8>::empty());
        assert(decoded@ + Seq::<u8>::empty() =~= decoded@);
    }
    decoded
}

} // verus!
