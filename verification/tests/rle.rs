use comprs::encodings::rle::{apply, reduce, RLEPair};
use comprs::encodings::startransform::is_word;
use comprs::encodings::{TData, Transform};
use comprs::error::CodingError;

#[test]
fn rle_test_apply() {
    let data = String::from("WWWWWWWWWWWWBWWWWWWWWWWWWBBBWWWWWWWWWWWWWWWWWWWWWWWWBWWWWWWWWWWWWWW").into_bytes();

    let test_data = [12, 87, 1, 66, 12, 87, 3, 66, 24, 87, 1, 66, 14, 87];
    assert_eq!(apply(&data).unwrap(), test_data);
}

#[test]
fn rle_test_reduce() {
    let data = [12, 87, 1, 66, 12, 87, 3, 66, 24, 87, 1, 66, 14, 87];
    assert_eq!(reduce(&data), String::from("WWWWWWWWWWWWBWWWWWWWWWWWWBBBWWWWWWWWWWWWWWWWWWWWWWWWBWWWWWWWWWWWWWW").into_bytes());
}

#[test]
fn one_byte_is_one_run() {
    assert_eq!(apply(&[9]).unwrap(), vec![1, 9]);
    assert_eq!(reduce(&[1, 9]), vec![9]);
}

#[test]
fn long_runs_take_more_bytes_for_the_length() {
    // 240 fits in one byte
    assert_eq!(apply(&vec![7u8; 240]).unwrap(), vec![240, 7]);
    // 241 = 240 + 1: leading byte 241, then 1
    assert_eq!(apply(&vec![7u8; 241]).unwrap(), vec![241, 1, 7]);
    // 2031 = 240 + 6 * 256 + 255
    assert_eq!(apply(&vec![7u8; 2031]).unwrap(), vec![247, 255, 7]);
    // 2032: leading byte 248, then 0, 0
    assert_eq!(apply(&vec![7u8; 2032]).unwrap(), vec![248, 0, 0, 7]);
    // 67567 = 2032 + 255 * 256 + 255
    assert_eq!(apply(&vec![7u8; 67567]).unwrap(), vec![248, 255, 255, 7]);
    // 67568 = 0x0107F0: leading byte 249, then three bytes, low byte first
    assert_eq!(apply(&vec![7u8; 67568]).unwrap(), vec![249, 0xF0, 0x07, 0x01, 7]);
    for n in [240usize, 241, 2031, 2032, 67567, 67568, 100_000] {
        let data = vec![3u8; n];
        assert_eq!(reduce(&apply(&data).unwrap()), data);
    }
}

#[test]
fn four_byte_lengths_are_read() {
    // 250 announces four bytes, low byte first: 0x00020001 = 131073
    let decoded = reduce(&[250, 1, 0, 2, 0, 5]);
    assert_eq!(decoded.len(), 131073);
    assert!(decoded.iter().all(|b| *b == 5));
}

#[test]
fn reduce_stops_at_a_run_that_is_not_whole() {
    assert_eq!(reduce(&[]), Vec::<u8>::new());
    assert_eq!(reduce(&[2, 65, 3]), vec![65, 65]);
    assert_eq!(reduce(&[2, 65, 241]), vec![65, 65]);
    assert_eq!(reduce(&[2, 65, 248, 1, 1]), vec![65, 65]);
    // a leading byte that announces more than 32 bits
    assert_eq!(reduce(&[2, 65, 251, 1, 1, 1, 1, 1, 66]), vec![65, 65]);
    assert_eq!(reduce(&[0, 65, 1, 66]), vec![66]);
}

#[test]
fn rle_roundtrip_on_mixed_input() {
    let mut data: Vec<u8> = Vec::new();
    let mut x: u32 = 5;
    for _ in 0..300 {
        x = x.wrapping_mul(1664525).wrapping_add(1013904223);
        let run = 1 + (x >> 24) as usize % 9;
        let byte = (x >> 8) as u8 % 4;
        for _ in 0..run {
            data.push(byte);
        }
    }
    assert_eq!(reduce(&apply(&data).unwrap()), data);
}

#[test]
fn pair_counts_and_serializes() {
    let mut pair = RLEPair::new(1, 66);
    assert_eq!(pair.count, 1);
    assert_eq!(pair.symbol, 66);
    pair.increment();
    pair.increment();
    assert_eq!(pair.count, 3);
    let mut out: Vec<u8> = vec![0xEE];
    pair.serialize(&mut out).unwrap();
    assert_eq!(out, vec![0xEE, 3, 66]);

    let wide = RLEPair::new(300, 1);
    let mut out: Vec<u8> = Vec::new();
    wide.serialize(&mut out).unwrap();
    assert_eq!(out, vec![241, 60, 1]);
}

#[test]
fn pair_deserializes() {
    let (pair, size) = RLEPair::deserialize(&[3, 66, 9, 9]).unwrap();
    assert_eq!(pair.count, 3);
    assert_eq!(pair.symbol, 66);
    assert_eq!(size, 2);
    let (pair, size) = RLEPair::deserialize(&[241, 60, 1]).unwrap();
    assert_eq!(pair.count, 300);
    assert_eq!(pair.symbol, 1);
    assert_eq!(size, 3);
    assert!(matches!(RLEPair::deserialize(&[]), Err(CodingError::CorruptInput)));
    assert!(matches!(RLEPair::deserialize(&[3]), Err(CodingError::CorruptInput)));
    assert!(matches!(RLEPair::deserialize(&[241, 60]), Err(CodingError::CorruptInput)));
    assert!(matches!(RLEPair::deserialize(&[255, 1, 2]), Err(CodingError::CorruptInput)));
}

#[test]
fn decode_undoes_run_lengths() {
    let t = TData { transforms: vec![Transform::RLE], buffer: vec![3, 65, 1, 66] };
    assert_eq!(t.decode().unwrap(), b"AAAB".to_vec());
}

#[test]
fn words_are_letters_of_limited_length() {
    assert!(is_word(b"hello"));
    assert!(is_word(b"ab"));
    assert!(is_word(b"ABCDEFGHIJKLMNOPQRSTUV"));
    assert!(!is_word(b"a"));
    assert!(!is_word(b""));
    assert!(!is_word(b"abcdefghijklmnopqrstuvw"));
    assert!(!is_word(b"hello!"));
    assert!(!is_word(b"hel lo"));
    assert!(!is_word(b"h3llo"));
    // the capital W is not among the letters
    assert!(!is_word(b"World"));
    assert!(is_word(b"world"));
    assert!(!is_word("né".as_bytes()));
}
