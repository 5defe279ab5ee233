use comprs::encodings::bwt::{apply, reduce, BWTChunk, Permutation, CHUNK_SIZE};
use comprs::error::CodingError;
use std::cmp::Ordering;

fn sample_frame() -> Vec<u8> {
    vec![
        01, 00, 00, 00, 00, 00, 00, 00,
        19, 00, 00, 00, 00, 00, 00, 00,
        83, 83, 51, 46, 46, 49, 50, 46,
        46, 78, 78, 78, 78, 65, 65, 65,
        65, 65, 65, 02, 00, 00, 00,
    ]
}

#[test]
fn bwt_test_apply() {
    let test_data = sample_frame();

    let data = String::from(".ANANAS..ANANAS.123").into_bytes();
    assert_eq!(apply(&data), test_data);
}

#[test]
fn bwt_test_reduce() {
    let test_data = sample_frame();

    let result = reduce(&test_data).unwrap();
    assert_eq!(result, String::from(".ANANAS..ANANAS.123").into_bytes());
}

#[test]
fn test_encode() {
    let input: Vec<u8> = String::from(".ANANAS.").into_bytes();
    let result = BWTChunk::encode(&input);
    assert_eq!(result.index, 1);
    assert_eq!(String::from("S..NNAAA"), String::from_utf8(result.data).unwrap());
}

#[test]
fn test_decode() {
    let input: Vec<u8> = String::from("S..NNAAA").into_bytes();
    let chunk = BWTChunk { data: input, index: 1 };
    assert_eq!(String::from(".ANANAS."), String::from_utf8(chunk.decode().unwrap()).unwrap());
}

#[test]
fn chunk_of_nothing() {
    let chunk = BWTChunk::encode(&[]);
    assert_eq!(chunk.index, 0);
    assert!(chunk.data.is_empty());
    assert!(BWTChunk { data: vec![], index: 0 }.decode().unwrap().is_empty());
    assert!(BWTChunk { data: vec![], index: 7 }.decode().unwrap().is_empty());
}

#[test]
fn chunk_of_one_byte() {
    let chunk = BWTChunk::encode(&[0x41]);
    assert_eq!(chunk.data, vec![0x41]);
    assert_eq!(chunk.index, 0);
    assert_eq!(BWTChunk { data: vec![0x41], index: 0 }.decode().unwrap(), vec![0x41]);
}

#[test]
fn chunk_of_equal_bytes() {
    let input = vec![7u8; 9];
    let chunk = BWTChunk::encode(&input);
    assert_eq!(chunk.data, input);
    assert_eq!(chunk.index, 0);
    assert_eq!(chunk.decode().unwrap(), input);
}

#[test]
fn chunk_of_a_repeated_pattern() {
    // The rotations "abab" (twice) come before "baba" (twice); the block is the
    // first of its equals.
    let input = b"abab".to_vec();
    let chunk = BWTChunk::encode(&input);
    assert_eq!(chunk.data, b"bbaa".to_vec());
    assert_eq!(chunk.index, 0);
    assert_eq!(chunk.decode().unwrap(), input);

    let input = b"baba".to_vec();
    let chunk = BWTChunk::encode(&input);
    assert_eq!(chunk.data, b"bbaa".to_vec());
    assert_eq!(chunk.index, 2);
    assert_eq!(chunk.decode().unwrap(), input);
}

#[test]
fn chunk_roundtrip_on_text() {
    let input = b"the quick brown fox jumps over the lazy dog, the quick brown fox".to_vec();
    let chunk = BWTChunk::encode(&input);
    assert_eq!(chunk.data.len(), input.len());
    assert!((chunk.index as usize) < input.len());
    assert_eq!(chunk.decode().unwrap(), input);
}

#[test]
fn chunk_roundtrip_on_all_byte_values() {
    let mut input: Vec<u8> = Vec::new();
    for round in 0..3u32 {
        for b in 0..=255u8 {
            input.push(b.wrapping_mul(31).wrapping_add(round as u8));
        }
    }
    let chunk = BWTChunk::encode(&input);
    assert_eq!(chunk.decode().unwrap(), input);
}

#[test]
fn apply_of_nothing_has_no_chunk() {
    assert_eq!(apply(&[]), vec![0, 0, 0, 0, 0, 0, 0, 0]);
    assert_eq!(reduce(&[0, 0, 0, 0, 0, 0, 0, 0]).unwrap(), Vec::<u8>::new());
}

#[test]
fn apply_cuts_long_input_into_chunks() {
    let size = CHUNK_SIZE as usize;
    let mut input: Vec<u8> = Vec::with_capacity(size + 5);
    let mut x: u32 = 2024;
    for _ in 0..size + 5 {
        x = x.wrapping_mul(1664525).wrapping_add(1013904223);
        input.push((x >> 24) as u8);
    }
    let framed = apply(&input);
    assert_eq!(&framed[0..8], &[2, 0, 0, 0, 0, 0, 0, 0]);
    // first chunk: a full block
    assert_eq!(&framed[8..16], &[0, 0, 0x10, 0, 0, 0, 0, 0]);
    // second chunk: the five bytes that are left
    let second = 8 + 8 + size + 4;
    assert_eq!(&framed[second..second + 8], &[5, 0, 0, 0, 0, 0, 0, 0]);
    assert_eq!(framed.len(), 8 + size + 5 + 2 * 12);
    assert_eq!(reduce(&framed).unwrap(), input);
}

#[test]
fn reduce_ignores_what_follows_the_chunks() {
    let mut framed = sample_frame();
    framed.extend_from_slice(&[9, 9, 9]);
    assert_eq!(reduce(&framed).unwrap(), String::from(".ANANAS..ANANAS.123").into_bytes());
}

#[test]
fn reduce_rejects_a_short_header() {
    assert_eq!(reduce(&[1, 0, 0]), Err(CodingError::CorruptInput));
    assert_eq!(reduce(&[]), Err(CodingError::CorruptInput));
}

#[test]
fn reduce_rejects_a_missing_chunk() {
    assert_eq!(reduce(&[1, 0, 0, 0, 0, 0, 0, 0]), Err(CodingError::CorruptInput));
    let mut framed = sample_frame();
    framed[0] = 2;
    assert_eq!(reduce(&framed), Err(CodingError::CorruptInput));
}

#[test]
fn reduce_rejects_a_chunk_cut_short() {
    let framed = sample_frame();
    assert_eq!(reduce(&framed[..framed.len() - 1]), Err(CodingError::CorruptInput));
    assert_eq!(reduce(&framed[..20]), Err(CodingError::CorruptInput));
}

#[test]
fn reduce_rejects_an_index_outside_the_chunk() {
    let mut framed = sample_frame();
    let at = framed.len() - 4;
    framed[at] = 19;
    assert_eq!(reduce(&framed), Err(CodingError::CorruptInput));
    framed[at] = 18;
    assert!(reduce(&framed).is_ok());
}

#[test]
fn reduce_rejects_a_length_beyond_a_block() {
    let mut framed = sample_frame();
    framed[8 + 4] = 1;
    assert_eq!(reduce(&framed), Err(CodingError::CorruptInput));
}

#[test]
fn permutation_reads_the_block_turned_right() {
    let data = b".ANANAS.".to_vec();
    let p = Permutation::new(&data, 2);
    assert_eq!(p.index, 2);
    let row: Vec<u8> = (0..data.len()).map(|i| p.index(i)).collect();
    assert_eq!(row, b"S..ANANA".to_vec());
    let q = Permutation::new(&data, 0);
    let row: Vec<u8> = (0..data.len()).map(|i| q.index(i)).collect();
    assert_eq!(row, data);
}

#[test]
fn permutation_compare_is_dictionary_order() {
    let data = b".ANANAS.".to_vec();
    let block = Permutation::new(&data, 0);
    let turned = Permutation::new(&data, 1);
    let more = Permutation::new(&data, 2);
    assert_eq!(turned.compare(&block), Ordering::Less);
    assert_eq!(block.compare(&turned), Ordering::Greater);
    assert_eq!(block.compare(&more), Ordering::Less);
    assert_eq!(block.compare(&block), Ordering::Equal);

    let pattern = b"abab".to_vec();
    let a = Permutation::new(&pattern, 0);
    let b = Permutation::new(&pattern, 2);
    assert_eq!(a.compare(&b), Ordering::Equal);
}

#[test]
fn reduce_rejects_a_chunk_without_data() {
    let framed = [1, 0, 0, 0, 0, 0, 0, 0, 0, 0, 0, 0, 0, 0, 0, 0, 0, 0, 0, 0];
    assert_eq!(reduce(&framed), Err(CodingError::CorruptInput));
}

#[test]
fn decode_rejects_an_index_that_is_no_place_of_the_data() {
    let chunk = BWTChunk { data: b"S..NNAAA".to_vec(), index: 8 };
    assert_eq!(chunk.decode(), Err(CodingError::CorruptInput));
    let chunk = BWTChunk { data: vec![5], index: 1 };
    assert_eq!(chunk.decode(), Err(CodingError::CorruptInput));
    let chunk = BWTChunk { data: b"S..NNAAA".to_vec(), index: 7 };
    assert!(chunk.decode().is_ok());
}
