use vstd::prelude::*;
use bitbit::{BitReader, BitWriter, MSB};

verus! {

/// The error type of the byte sink behind a `BitSink`.
#[verifier::external_type_specification]
#[verifier::external_body]
pub struct ExIoError(std::io::Error);

/// The weight of bit `i` of a byte, counting from the most significant bit.
pub open spec fn bit_weight(i: int) -> int {
    if i == 0 {
        128
    } else if i == 1 {
        64
    } else if i == 2 {
        32
    } else if i == 3 {
        16
    } else if i == 4 {
        8
    } else if i == 5 {
        4
    } else if i == 6 {
        2
    } else {
        1
    }
}

/// Bit `i` of `b`, counting from the most significant bit.
pub open spec fn bit_of_byte(b: u8, i: int) -> bool {
    (b as int / bit_weight(i)) % 2 == 1
}

/// The bits of `bytes` in stream order: bytes in order, each from its most significant bit.
pub open spec fn bytes_to_bits(bytes: Seq<u8>) -> Seq<bool> {
    Seq::new(8 * bytes.len(), |i: int| bit_of_byte(bytes[i / 8], i % 8))
}

/// `1` for a set bit, `0` for a clear one.
pub open spec fn bit_value(b: bool) -> int {
    if b {
        1
    } else {
        0
    }
}

/// The byte made of the eight bits of `bits` that start at `at`, the first one most significant.
pub open spec fn byte_at(bits: Seq<bool>, at: int) -> u8 {
    (128 * bit_value(bits[at]) + 64 * bit_value(bits[at + 1]) + 32 * bit_value(bits[at + 2]) + 16
        * bit_value(bits[at + 3]) + 8 * bit_value(bits[at + 4]) + 4 * bit_value(bits[at + 5]) + 2
        * bit_value(bits[at + 6]) + bit_value(bits[at + 7])) as u8
}

/// The whole bytes that `bits` fill; up to seven trailing bits are left out.
pub open spec fn pack_bits(bits: Seq<bool>) -> Seq<u8> {
    Seq::new((bits.len() / 8) as nat, |k: int| byte_at(bits, 8 * k))
}

/// Unpacking packed bits gives back every bit that was part of a whole byte.
pub proof fn lemma_unpack_pack(bits: Seq<bool>, i: int)
    requires
        0 <= i < 8 * (bits.len() / 8),
    ensures
        bytes_to_bits(pack_bits(bits)).len() == 8 * (bits.len() / 8),
        bytes_to_bits(pack_bits(bits))[i] == bits[i],
{
    let k = i / 8;
    let j = i % 8;
    let b = byte_at(bits, 8 * k);
    assert(pack_bits(bits)[k] == b);
    assert(bit_of_byte(b, j) == bits[8 * k + j]);
}

/// The eight bits of `b`, most significant first.
pub open spec fn byte_bits(b: u8) -> Seq<bool> {
    Seq::new(8, |i: int| bit_of_byte(b, i))
}

/// A writer of single bits that collects them, eight at a time, into a byte vector.
#[verifier::external_body]
pub struct BitSink {
    inner: BitWriter<Vec<u8>>,
}

/// A reader of single bits from a byte slice.
#[verifier::external_body]
pub struct BitSource<'a> {
    inner: BitReader<&'a [u8], MSB>,
}

/// Every bit that went into the sink, oldest first: those of the bytes it started
/// with, then those written since.
pub uninterp spec fn sink_bits(w: BitSink) -> Seq<bool>;

/// The bits that the source has not handed out yet, next one first.
pub uninterp spec fn source_bits(r: BitSource) -> Seq<bool>;

/// `BitWriter::new` over a byte vector: the writer starts out holding no partial
/// byte, so all that has gone in are the bits of the vector's bytes.
#[verifier::external_body]
pub(crate) fn sink_new(buffer: Vec<u8>) -> (w: BitSink)
    ensures
        sink_bits(w) == bytes_to_bits(buffer@),
{
    BitSink { inner: BitWriter::new(buffer) }
}

/// `BitWriter::write_bit`: the bit is appended. The writer fails only where the
/// sink under it refuses a byte, and a byte vector takes every byte.
#[verifier::external_body]
pub(crate) fn sink_put(w: &mut BitSink, bit: bool) -> (r: Result<(), std::io::Error>)
    ensures
        r is Ok,
        sink_bits(*final(w)) == sink_bits(*old(w)).push(bit),
{
    w.inner.write_bit(bit)
}

/// `BitWriter::write_byte`: the eight bits of `byte` are appended, most
/// significant first. The writer fails only where the sink under it refuses a
/// byte, and a byte vector takes every byte.
#[verifier::external_body]
pub(crate) fn sink_put_byte(w: &mut BitSink, byte: u8) -> (r: Result<(), std::io::Error>)
    ensures
        r is Ok,
        sink_bits(*final(w)) == sink_bits(*old(w)) + byte_bits(byte),
{
    w.inner.write_byte(byte)
}

/// `BitWriter::get_ref`: the vector holds every whole byte of what went in, and
/// looking at it changes nothing.
#[verifier::external_body]
pub(crate) fn sink_bytes(w: &mut BitSink) -> (bytes: Vec<u8>)
    ensures
        bytes@ == pack_bits(sink_bits(*old(w))),
        sink_bits(*final(w)) == sink_bits(*old(w)),
{
    w.inner.get_ref().clone()
}

/// `BitReader::new` over a byte slice: all bits of the slice are still to come.
#[verifier::external_body]
pub(crate) fn source_new<'a>(data: &'a [u8]) -> (r: BitSource<'a>)
    ensures
        source_bits(r) == bytes_to_bits(data@),
{
    BitSource { inner: BitReader::new(data) }
}

/// `BitReader::read_bit`: hands out the next bit while there is one; at the end of
/// the slice it reports an error and stays at the end.
#[verifier::external_body]
pub(crate) fn source_next<'a>(r: &mut BitSource<'a>) -> (b: Result<bool, std::io::Error>)
    ensures
        source_bits(*old(r)).len() > 0 ==> b == Ok::<bool, std::io::Error>(source_bits(*old(r))[0])
            && source_bits(*final(r)) == source_bits(*old(r)).skip(1),
        source_bits(*old(r)).len() == 0 ==> b is Err && source_bits(*final(r)) == source_bits(
            *old(r),
        ),
{
    r.inner.read_bit()
}

} // verus!
