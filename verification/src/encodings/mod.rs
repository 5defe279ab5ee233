use vstd::prelude::*;
use vstd::bytes::{
    lemma_auto_spec_u32_to_from_le_bytes, lemma_auto_spec_u64_to_from_le_bytes,
    spec_u32_from_le_bytes, spec_u32_to_le_bytes, spec_u64_from_le_bytes, spec_u64_to_le_bytes,
    u32_from_le_bytes, u32_to_le_bytes, u64_from_le_bytes, u64_to_le_bytes,
};
use vstd::slice::{slice_subrange, slice_to_vec};
use self::bwt::{bwt_forward, bwt_inverse, chunk_count, CHUNK_SIZE};
use self::mtf::{mtf_forward, mtf_inverse};
use self::ppm::{compressed, decompressed, MAX_SYMBOLS, ORDER};
use self::rle::rle_inverse;
use crate::error::CodingError;

pub mod arithmetic_coder;
pub mod bwt;
pub mod mtf;
pub mod ppm;
pub mod rle;
pub mod startransform;

verus! {

/// A stage of the pipeline.
///
/// `RLE` and `ST` are reserved: they have a tag on the wire, but the pipeline
/// does not apply them. `ST` cannot be undone either.
#[derive(Debug, Clone, Copy, PartialEq, Eq, Structural)]
pub enum Transform {
    BWT,
    MTF,
    RLE,
    ST,
    PPM,
}

/// The stages applied to an input, and what they made of it.
pub struct TData {
    pub transforms: Vec<Transform>,
    pub buffer: Vec<u8>,
}

/// The number that stands for a stage on the wire.
pub open spec fn tag_of(t: Transform) -> u32 {
    match t {
        Transform::BWT => 0,
        Transform::MTF => 1,
        Transform::RLE => 2,
        Transform::ST => 3,
        Transform::PPM => 4,
    }
}

/// The stage that a number stands for on the wire, if any.
pub open spec fn stage_of(tag: u32) -> Option<Transform> {
    if tag == 0 {
        Some(Transform::BWT)
    } else if tag == 1 {
        Some(Transform::MTF)
    } else if tag == 2 {
        Some(Transform::RLE)
    } else if tag == 3 {
        Some(Transform::ST)
    } else if tag == 4 {
        Some(Transform::PPM)
    } else {
        None
    }
}

/// The stages that the pipeline applies, in order.
pub open spec fn default_stages() -> Seq<Transform> {
    seq![Transform::BWT, Transform::MTF, Transform::PPM]
}

/// What undoing a stage makes of `y`; `None` where `y` is not something the
/// stage makes, and for the stage that cannot be undone.
pub open spec fn stage_inverse(t: Transform, y: Seq<u8>) -> Option<Seq<u8>> {
    match t {
        Transform::BWT => bwt_inverse(y),
        Transform::MTF => Some(mtf_inverse(y)),
        Transform::RLE => Some(rle_inverse(y)),
        Transform::PPM => decompressed(y, ORDER as int),
        Transform::ST => None,
    }
}

/// What the stages `stages`, undone from the last to the first, make of `y`.
pub open spec fn undone(stages: Seq<Transform>, y: Seq<u8>) -> Option<Seq<u8>>
    decreases stages.len(),
{
    if stages.len() == 0 {
        Some(y)
    } else {
        match stage_inverse(stages.last(), y) {
            Some(x) => undone(stages.drop_last(), x),
            None => None,
        }
    }
}

/// What the pipeline makes of `x` before it is put in an envelope.
pub open spec fn payload_of(x: Seq<u8>) -> Seq<u8> {
    compressed(mtf_forward(bwt_forward(x)), ORDER as int)
}

/// The tags of `stages` on the wire: four bytes each, low byte first.
pub open spec fn tags_of(stages: Seq<Transform>) -> Seq<u8>
    decreases stages.len(),
{
    if stages.len() == 0 {
        Seq::<u8>::empty()
    } else {
        tags_of(stages.drop_last()) + spec_u32_to_le_bytes(tag_of(stages.last()))
    }
}

/// The envelope: the number of stages in eight bytes, their tags, the length of
/// the payload in eight bytes, and the payload, every number low byte first.
pub open spec fn envelope(stages: Seq<Transform>, payload: Seq<u8>) -> Seq<u8> {
    spec_u64_to_le_bytes(stages.len() as u64) + tags_of(stages) + spec_u64_to_le_bytes(
        payload.len() as u64,
    ) + payload
}

/// The stages whose `count` tags stand at place `pos` of `bytes`; `None` where
/// the bytes end too early or a tag stands for no stage.
pub open spec fn parse_tags(bytes: Seq<u8>, pos: int, count: nat) -> Option<Seq<Transform>>
    decreases count,
{
    if count == 0 {
        Some(Seq::<Transform>::empty())
    } else if pos + 4 * count > bytes.len() {
        None
    } else {
        let last_at = pos + 4 * (count - 1);
        match (
            parse_tags(bytes, pos, (count - 1) as nat),
            stage_of(spec_u32_from_le_bytes(bytes.subrange(last_at, last_at + 4))),
        ) {
            (Some(stages), Some(stage)) => Some(stages.push(stage)),
            _ => None,
        }
    }
}

/// The stages and the payload of an envelope; `None` where the bytes are no
/// envelope. Bytes behind the payload are not looked at.
pub open spec fn parse_envelope(bytes: Seq<u8>) -> Option<(Seq<Transform>, Seq<u8>)> {
    if bytes.len() < 8 {
        None
    } else {
        let count = spec_u64_from_le_bytes(bytes.subrange(0, 8)) as nat;
        match parse_tags(bytes, 8, count) {
            None => None,
            Some(stages) => {
                let at = (8 + 4 * count) as int;
                if at + 8 > bytes.len() {
                    None
                } else {
                    let len = spec_u64_from_le_bytes(bytes.subrange(at, at + 8)) as int;
                    if at + 8 + len > bytes.len() {
                        None
                    } else {
                        Some((stages, bytes.subrange(at + 8, at + 8 + len)))
                    }
                }
            },
        }
    }
}

/// The compressed form of `x`, envelope included.
pub open spec fn pipeline_encoded(x: Seq<u8>) -> Seq<u8> {
    envelope(default_stages(), payload_of(x))
}

/// What compressed bytes stand for; `None` where they are not something the
/// pipeline makes.
pub open spec fn pipeline_decoded(bytes: Seq<u8>) -> Option<Seq<u8>> {
    match parse_envelope(bytes) {
        Some((stages, payload)) => undone(stages, payload),
        None => None,
    }
}

/// The length of the block transform of an input of `n` bytes.
pub open spec fn transformed_len(n: int) -> int {
    8 + n + 12 * chunk_count(n)
}

/// Whether an input of `len` bytes is short enough to be compressed: its block
/// transform must not be longer than the longest input of the coder.
pub fn accepts(len: usize) -> (r: bool)
    ensures
        r == (transformed_len(len as int) <= MAX_SYMBOLS),
{
    if len > MAX_SYMBOLS {
        return false;
    }
    let chunk: usize = CHUNK_SIZE as usize;
    let chunks: usize = (len + (chunk - 1)) / chunk;
    8 + len + 12 * chunks <= MAX_SYMBOLS
}

impl Transform {
    /// The stage's name.
    pub fn name(&self) -> (s: &'static str)
        ensures
            s@ == (match *self {
                Transform::BWT => "BWT"@,
                Transform::MTF => "MTF"@,
                Transform::RLE => "RLE"@,
                Transform::ST => "ST"@,
                Transform::PPM => "PPM"@,
            }),
    {
        match *self {
            Transform::BWT => "BWT",
            Transform::MTF => "MTF",
            Transform::RLE => "RLE",
            Transform::ST => "ST",
            Transform::PPM => "PPM",
        }
    }

    /// The number that stands for the stage on the wire.
    pub fn tag(&self) -> (tag: u32)
        ensures
            tag == tag_of(*self),
    {
        match *self {
            Transform::BWT => 0,
            Transform::MTF => 1,
            Transform::RLE => 2,
            Transform::ST => 3,
            Transform::PPM => 4,
        }
    }

    /// The stage that `tag` stands for on the wire, if any.
    pub fn from_tag(tag: u32) -> (stage: Option<Transform>)
        ensures
            stage == stage_of(tag),
    {
        if tag == 0 {
            Some(Transform::BWT)
        } else if tag == 1 {
            Some(Transform::MTF)
        } else if tag == 2 {
            Some(Transform::RLE)
        } else if tag == 3 {
            Some(Transform::ST)
        } else if tag == 4 {
            Some(Transform::PPM)
        } else {
            None
        }
    }
}

impl TData {
    /// Applies the pipeline's stages to `data`.
    pub fn encode(data: &[u8]) -> (r: Result<TData, CodingError>)
        requires
            transformed_len(data@.len() as int) <= MAX_SYMBOLS,
        ensures
            r matches Ok(t) && t.transforms@ == default_stages() && t.buffer@ == payload_of(data@),
    {
        let mut transforms: Vec<Transform> = Vec::new();
        transforms.push(Transform::BWT);
        transforms.push(Transform::MTF);
        transforms.push(Transform::PPM);
        proof {
            assert(transforms@ =~= default_stages());
            self::bwt::roundtrip::lemma_forward_len(data@);
            self::mtf::theorem_mtf_roundtrip(bwt_forward(data@));
        }
        let sorted: Vec<u8> = bwt::apply(data);
        let ranked: Vec<u8> = mtf::apply(sorted.as_slice());
        let buffer: Vec<u8> = match ppm::apply(ranked.as_slice()) {
            Ok(b) => b,
            Err(e) => {
                return Err(e);
            },
        };
        Ok(TData { transforms, buffer })
    }

    /// Undoes the stages, last one first, and returns the content as bytes.
    ///
    /// Fails where the buffer is not what the stages make, or a stage that
    /// cannot be undone is among them.
    pub fn decode(self) -> (r: Result<Vec<u8>, CodingError>)
        ensures
            match undone(self.transforms@, self.buffer@) {
                Some(bytes) => r matches Ok(v) && v@ == bytes,
                None => r == Err::<Vec<u8>, CodingError>(CodingError::CorruptInput),
            },
    {
        let TData { transforms, buffer } = self;
        let mut buffer: Vec<u8> = buffer;
        let mut left: usize = transforms.len();
        proof {
            assert(transforms@.take(left as int) =~= transforms@);
        }
        while left > 0
            invariant
                left <= transforms@.len(),
                undone(transforms@.take(left as int), buffer@) == undone(
                    self.transforms@,
                    self.buffer@,
                ),
            decreases left,
        {
            proof {
                let stages = transforms@.take(left as int);
                assert(stages.last() == transforms@[left - 1]);
                assert(stages.drop_last() =~= transforms@.take(left - 1));
            }
            let transform: &Transform = &transforms[left - 1];
            buffer = match transform {
                Transform::BWT => match bwt::reduce(buffer.as_slice()) {
                    Ok(b) => b,
                    Err(e) => {
                        return Err(e);
                    },
                },
                Transform::MTF => mtf::reduce(buffer.as_slice()),
                Transform::RLE => rle::reduce(buffer.as_slice()),
                Transform::PPM => match ppm::reduce(buffer.as_slice()) {
                    Ok(b) => b,
                    Err(e) => {
                        return Err(e);
                    },
                },
                _ => {
                    return Err(CodingError::CorruptInput);
                },
            };
            left = left - 1;
        }
        Ok(buffer)
    }
}

impl TData {
    /// The envelope: the stages by their tags, then the buffer, each behind
    /// its length.
    pub fn to_bytes(self) -> (out: Vec<u8>)
        ensures
            out@ == envelope(self.transforms@, self.buffer@),
    {
        let TData { transforms, buffer } = self;
        let mut buffer: Vec<u8> = buffer;
        let mut out: Vec<u8> = u64_to_le_bytes(transforms.len() as u64);
        let ghost head = out@;
        let mut i: usize = 0;
        proof {
            assert(transforms@.take(0) =~= Seq::<Transform>::empty());
            assert(head + tags_of(Seq::<Transform>::empty()) =~= head);
        }
        while i < transforms.len()
            invariant
                i <= transforms@.len(),
                out@ == head + tags_of(transforms@.take(i as int)),
            decreases transforms@.len() - i,
        {
            let mut tag: Vec<u8> = u32_to_le_bytes(transforms[i].tag());
            proof {
                let next = transforms@.take(i + 1);
                assert(next.drop_last() =~= transforms@.take(i as int));
                assert(next.last() == transforms@[i as int]);
                assert(out@ + tag@ =~= head + tags_of(next));
            }
            out.append(&mut tag);
            i = i + 1;
        }
        proof {
            assert(transforms@.take(i as int) =~= transforms@);
        }
        let mut len: Vec<u8> = u64_to_le_bytes(buffer.len() as u64);
        out.append(&mut len);
        out.append(&mut buffer);
        out
    }

    /// Opens an envelope: the stages it names and the buffer it holds.
    ///
    /// Fails where `data` is no envelope: it ends too early, or a tag stands
    /// for no stage. Bytes behind the buffer are not looked at.
    pub fn from_bytes(data: &[u8]) -> (r: Result<TData, CodingError>)
        ensures
            match parse_envelope(data@) {
                Some((stages, payload)) => r matches Ok(t) && t.transforms@ == stages
                    && t.buffer@ == payload,
                None => r matches Err(e) && e == CodingError::CorruptInput,
            },
    {
        let total: usize = data.len();
        if total < 8 {
            return Err(CodingError::CorruptInput);
        }
        let count: u64 = u64_from_le_bytes(slice_subrange(data, 0, 8));
        if count > ((total - 8) / 4) as u64 {
            proof {
                lemma_parse_tags_short(data@, 8, count as nat);
            }
            return Err(CodingError::CorruptInput);
        }
        let count: usize = count as usize;
        let mut transforms: Vec<Transform> = Vec::new();
        let mut i: usize = 0;
        while i < count
            invariant
                total == data@.len(),
                8 + 4 * count <= total,
                i <= count,
                count == spec_u64_from_le_bytes(data@.subrange(0, 8)),
                parse_tags(data@, 8, i as nat) == Some(transforms@),
            decreases count - i,
        {
            let at: usize = 8 + 4 * i;
            let tag: u32 = u32_from_le_bytes(slice_subrange(data, at, at + 4));
            match Transform::from_tag(tag) {
                Some(stage) => {
                    transforms.push(stage);
                },
                None => {
                    proof {
                        assert(parse_tags(data@, 8, (i + 1) as nat) is None);
                        lemma_parse_tags_bad(data@, 8, (i + 1) as nat, count as nat);
                    }
                    return Err(CodingError::CorruptInput);
                },
            }
            i = i + 1;
        }
        let at: usize = 8 + 4 * count;
        if total - at < 8 {
            return Err(CodingError::CorruptInput);
        }
        let len: u64 = u64_from_le_bytes(slice_subrange(data, at, at + 8));
        if len > (total - at - 8) as u64 {
            return Err(CodingError::CorruptInput);
        }
        let len: usize = len as usize;
        let buffer: Vec<u8> = slice_to_vec(slice_subrange(data, at + 8, at + 8 + len));
        Ok(TData { transforms, buffer })
    }
}

/// Compresses `data` and puts the result in an envelope that names the stages.
pub fn encode_pipeline(data: &[u8]) -> (r: Result<Vec<u8>, CodingError>)
    requires
        transformed_len(data@.len() as int) <= MAX_SYMBOLS,
    ensures
        r matches Ok(bytes) && bytes@ == pipeline_encoded(data@),
{
    match TData::encode(data) {
        Ok(t) => Ok(t.to_bytes()),
        Err(e) => Err(e),
    }
}

/// Opens the envelope of `data` and undoes the stages it names, last one first.
///
/// Fails where `data` is not something `encode_pipeline` makes.
pub fn decode_pipeline(data: &[u8]) -> (r: Result<Vec<u8>, CodingError>)
    ensures
        match pipeline_decoded(data@) {
            Some(bytes) => r matches Ok(v) && v@ == bytes,
            None => r == Err::<Vec<u8>, CodingError>(CodingError::CorruptInput),
        },
{
    match TData::from_bytes(data) {
        Ok(t) => t.decode(),
        Err(e) => Err(e),
    }
}

/// Tags that do not fit in the bytes are not read.
pub proof fn lemma_parse_tags_short(bytes: Seq<u8>, pos: int, count: nat)
    requires
        pos + 4 * count > bytes.len(),
        count > 0,
    ensures
        parse_tags(bytes, pos, count) is None,
{
}

/// Where the first `bad` tags cannot be read, no larger number of tags can.
pub proof fn lemma_parse_tags_bad(bytes: Seq<u8>, pos: int, bad: nat, count: nat)
    requires
        bad <= count,
        parse_tags(bytes, pos, bad) is None,
    ensures
        parse_tags(bytes, pos, count) is None,
    decreases count,
{
    if bad < count {
        lemma_parse_tags_bad(bytes, pos, bad, (count - 1) as nat);
    }
}

/// The tags of stages, behind any bytes and before any others, are read back
/// as the stages.
pub proof fn lemma_tags_roundtrip(pre: Seq<u8>, stages: Seq<Transform>, post: Seq<u8>)
    ensures
        tags_of(stages).len() == 4 * stages.len(),
        parse_tags(pre + tags_of(stages) + post, pre.len() as int, stages.len()) == Some(stages),
    decreases stages.len(),
{
    lemma_auto_spec_u32_to_from_le_bytes();
    let bytes = pre + tags_of(stages) + post;
    if stages.len() > 0 {
        let init = stages.drop_last();
        let last = spec_u32_to_le_bytes(tag_of(stages.last()));
        lemma_tags_roundtrip(pre, init, last + post);
        assert(pre + tags_of(init) + (last + post) =~= bytes);
        let at = pre.len() + 4 * (stages.len() - 1);
        assert(bytes.subrange(at, at + 4) =~= last);
        assert(init.push(stages.last()) =~= stages);
    }
}

/// Opening an envelope gives back the stages and the payload.
pub proof fn lemma_envelope_roundtrip(stages: Seq<Transform>, payload: Seq<u8>)
    requires
        stages.len() <= u64::MAX,
        payload.len() <= u64::MAX,
    ensures
        parse_envelope(envelope(stages, payload)) == Some((stages, payload)),
{
    lemma_auto_spec_u64_to_from_le_bytes();
    let head = spec_u64_to_le_bytes(stages.len() as u64);
    let len = spec_u64_to_le_bytes(payload.len() as u64);
    let bytes = envelope(stages, payload);
    lemma_tags_roundtrip(head, stages, len + payload);
    assert(head + tags_of(stages) + (len + payload) =~= bytes);
    assert(bytes.subrange(0, 8) =~= head);
    let at = (8 + 4 * stages.len()) as int;
    assert(bytes.subrange(at, at + 8) =~= len);
    assert(bytes.subrange(at + 8, at + 8 + payload.len()) =~= payload);
}

/// Decompressing what was compressed gives back the input, for every input
/// that is short enough to be compressed.
pub proof fn theorem_pipeline_roundtrip(x: Seq<u8>)
    requires
        transformed_len(x.len() as int) <= MAX_SYMBOLS,
    ensures
        pipeline_decoded(pipeline_encoded(x)) == Some(x),
{
    let sorted = bwt_forward(x);
    let ranked = mtf_forward(sorted);
    let payload = payload_of(x);
    let stages = default_stages();
    self::bwt::roundtrip::lemma_forward_len(x);
    self::bwt::roundtrip::theorem_bwt_roundtrip(x);
    self::mtf::theorem_mtf_roundtrip(sorted);
    self::ppm::roundtrip::theorem_ppm_roundtrip(ranked, ORDER as int);
    self::ppm::roundtrip::lemma_compressed_len(ranked, ORDER as int);
    lemma_envelope_roundtrip(stages, payload);
    let two = seq![Transform::BWT, Transform::MTF];
    let one = seq![Transform::BWT];
    assert(stages.drop_last() =~= two);
    assert(two.drop_last() =~= one);
    assert(one.drop_last() =~= Seq::<Transform>::empty());
    assert(undone(Seq::<Transform>::empty(), x) == Some(x));
    assert(one.last() == Transform::BWT);
    assert(two.last() == Transform::MTF);
    assert(stages.last() == Transform::PPM);
    assert(undone(one, sorted) == Some(x));
    assert(undone(two, ranked) == Some(x));
    assert(undone(stages, payload) == Some(x));
}

} // verus!
