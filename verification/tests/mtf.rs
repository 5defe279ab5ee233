use comprs::encodings::mtf::{apply, encode, reduce};

#[test]
fn mtf_test_apply() {
    let data = String::from("bananaaa").into_bytes();
    assert_eq!(apply(&data), vec![98, 98, 110, 1, 1, 1, 0, 0]);
}

#[test]
fn mtf_test_reduce() {
    let data = vec![98, 98, 110, 1, 1, 1, 0, 0];
    assert_eq!(reduce(&data), String::from("bananaaa").into_bytes());
}

#[test]
fn mtf_of_nothing() {
    assert!(apply(&[]).is_empty());
    assert!(reduce(&[]).is_empty());
}

#[test]
fn mtf_roundtrip_on_every_byte() {
    let mut data: Vec<u8> = Vec::new();
    for b in 0..=255u8 {
        data.push(b);
        data.push(255 - b);
        data.push(b);
    }
    assert_eq!(reduce(&apply(&data)), data);
    assert_eq!(apply(&reduce(&data)), data);
}

#[test]
fn mtf_of_a_run_is_zeros_after_the_first() {
    let data = vec![200u8; 6];
    assert_eq!(apply(&data), vec![200, 0, 0, 0, 0, 0]);
}

#[test]
fn encode_moves_the_byte_to_the_front() {
    let mut alphabet: Vec<u8> = (0..=255).collect();
    assert_eq!(encode(3, &mut alphabet), 3);
    assert_eq!(&alphabet[0..5], &[3, 0, 1, 2, 4]);
    assert_eq!(encode(3, &mut alphabet), 0);
    assert_eq!(encode(2, &mut alphabet), 3);
    assert_eq!(&alphabet[0..5], &[2, 3, 0, 1, 4]);
}

#[test]
fn alphabet_stays_a_permutation() {
    let mut alphabet: Vec<u8> = (0..=255).collect();
    let mut x: u32 = 12345;
    for _ in 0..2000 {
        x = x.wrapping_mul(1103515245).wrapping_add(12345);
        let byte = (x >> 16) as u8;
        let rank = encode(byte, &mut alphabet);
        assert_eq!(alphabet[0], byte);
        assert!(rank as usize <= 255);
        let mut seen = [false; 256];
        for b in &alphabet {
            assert!(!seen[*b as usize]);
            seen[*b as usize] = true;
        }
        assert_eq!(alphabet.len(), 256);
    }
}
