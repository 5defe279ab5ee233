use comprs::encodings::{accepts, decode_pipeline, encode_pipeline, TData, Transform};
use comprs::encodings::{bwt, mtf, ppm};
use comprs::error::CodingError;

fn sample() -> Vec<u8> {
    String::from("Lorem Ipsum is simply dummy text of the printing and typesetting industry.
            Lorem Ipsum has been the industry's standard dummy text ever since the 1500s,
            when an unknown printer took a galley of type and scrambled it to make a type specimen book.
            It has survived not only five centuries, but also the leap into electronic typesetting,
            remaining essentially unchanged. It was popularised in the 1960s with the release of
            Letraset sheets containing Lorem Ipsum passages, and more recently with desktop publishing
            software like Aldus PageMaker including versions of Lorem Ipsum.
            It is a long established fact that a reader will be distracted by the readable content
            of a page when looking at its layout. The point of using Lorem Ipsum is that it has a
            more-or-less normal distribution of letters, as opposed to using 'Content here, content here',
            making it look like readable English. Many desktop publishing packages and web page editors now
            use Lorem Ipsum as their default model text, and a search for 'lorem ipsum' will uncover many
            web sites still in their infancy. Various versions have evolved over the years,
            sometimes by accident, sometimes on purpose (injected humour and the like).
            It is a long established fact that a reader will be distracted by the
            readable content of a page when looking at its layout.
            The point of using Lorem Ipsum is that it has a more-or-less normal
            distribution of letters, as opposed to using 'Content here, content here',
            making it look like readable English. Many desktop publishing packages and
            web page editors now use Lorem Ipsum as their default model text, and a search for
            'lorem ipsum' will uncover many web sites still in their infancy. Various versions
            have evolved over the years, sometimes by accident, sometimes on purpose
            (injected humour and the like). There are many variations of passages of
            Lorem Ipsum available, but the majority have suffered alteration in some form,
            by injected humour, or randomised words which don't look even slightly believable.
            If you are going to use a passage of Lorem Ipsum, you need to be sure there isn't
            anything embarrassing hidden in the middle of text. All the Lorem Ipsum generators
            on the Internet tend to repeat predefined chunks as necessary,
            making this the first true generator on the Internet.
            It uses a dictionary of over 200 Latin words,
            combined with a handful of model sentence structures,
            to generate Lorem Ipsum which looks reasonable. The generated Lorem Ipsum is
            therefore always free from repetition, injected humour, or non-characteristic words etc."
    ).into_bytes()
}

#[test]
fn main_test_compression() {
    let test_data = sample();

    let compressed = encode_pipeline(test_data.as_slice()).unwrap();
    let restored = decode_pipeline(compressed.as_slice()).unwrap();

    assert_eq!(restored, test_data);
}

#[test]
fn sample_shrinks() {
    let test_data = sample();
    assert!(test_data.len() >= 500);
    let compressed = encode_pipeline(&test_data).unwrap();
    assert!(compressed.len() < test_data.len());
}

#[test]
fn envelope_names_the_stages() {
    let compressed = encode_pipeline(b"abracadabra").unwrap();
    assert_eq!(&compressed[0..8], &[3, 0, 0, 0, 0, 0, 0, 0]);
    assert_eq!(&compressed[8..12], &[0, 0, 0, 0]);
    assert_eq!(&compressed[12..16], &[1, 0, 0, 0]);
    assert_eq!(&compressed[16..20], &[4, 0, 0, 0]);
    let len = compressed.len() - 28;
    assert_eq!(&compressed[20..28], &(len as u64).to_le_bytes());
    let t = TData::encode(b"abracadabra").unwrap();
    assert_eq!(&compressed[28..], &t.buffer[..]);
    assert_eq!(t.transforms, vec![Transform::BWT, Transform::MTF, Transform::PPM]);
}

#[test]
fn stages_are_applied_in_order() {
    let data = b"abracadabra".to_vec();
    let t = TData::encode(&data).unwrap();
    let by_hand = ppm::apply(&mtf::apply(&bwt::apply(&data))).unwrap();
    assert_eq!(t.buffer, by_hand);
    assert_eq!(t.decode().unwrap(), data);
}

#[test]
fn nothing_roundtrip() {
    let compressed = encode_pipeline(&[]).unwrap();
    assert_eq!(decode_pipeline(&compressed).unwrap(), Vec::<u8>::new());
}

#[test]
fn one_byte_roundtrip_through_the_pipeline() {
    let compressed = encode_pipeline(&[0x41]).unwrap();
    assert_eq!(decode_pipeline(&compressed).unwrap(), vec![0x41]);
}

#[test]
fn repetitive_input_shrinks_through_the_pipeline() {
    let data = vec![b'A'; 1024];
    let compressed = encode_pipeline(&data).unwrap();
    assert!(compressed.len() < data.len());
    assert_eq!(decode_pipeline(&compressed).unwrap(), data);
}

#[test]
fn binary_input_roundtrip() {
    let mut data: Vec<u8> = Vec::new();
    let mut x: u32 = 7;
    for _ in 0..3000 {
        x = x.wrapping_mul(1664525).wrapping_add(1013904223);
        data.push((x >> 24) as u8);
    }
    let compressed = encode_pipeline(&data).unwrap();
    assert_eq!(decode_pipeline(&compressed).unwrap(), data);
}

#[test]
fn decode_with_no_stage_gives_the_buffer() {
    let t = TData { transforms: vec![], buffer: vec![1, 2, 3] };
    assert_eq!(t.decode().unwrap(), vec![1, 2, 3]);
}

#[test]
fn decode_undoes_a_single_stage() {
    let t = TData { transforms: vec![Transform::MTF], buffer: vec![98, 98, 110, 1, 1, 1, 0, 0] };
    assert_eq!(t.decode().unwrap(), b"bananaaa".to_vec());
}

#[test]
fn decode_rejects_reserved_stages() {
    let t = TData { transforms: vec![Transform::ST], buffer: vec![1, 2, 3] };
    assert_eq!(t.decode(), Err(CodingError::CorruptInput));
}

#[test]
fn decode_rejects_a_broken_envelope() {
    assert_eq!(decode_pipeline(&[]), Err(CodingError::CorruptInput));
    assert_eq!(decode_pipeline(&[1, 0, 0, 0, 0, 0, 0, 0]), Err(CodingError::CorruptInput));
    // a tag that names no stage
    let bad_tag = [1, 0, 0, 0, 0, 0, 0, 0, 9, 0, 0, 0, 0, 0, 0, 0, 0, 0, 0, 0];
    assert_eq!(decode_pipeline(&bad_tag), Err(CodingError::CorruptInput));
    // a payload that is longer than what is there
    let short = [0, 0, 0, 0, 0, 0, 0, 0, 5, 0, 0, 0, 0, 0, 0, 0, 1, 2];
    assert_eq!(decode_pipeline(&short), Err(CodingError::CorruptInput));
    // more stages than bytes
    let many = [255, 255, 255, 255, 255, 255, 255, 255, 0, 0, 0, 0];
    assert_eq!(decode_pipeline(&many), Err(CodingError::CorruptInput));
}

#[test]
fn decode_of_an_envelope_without_stages() {
    let plain = [0, 0, 0, 0, 0, 0, 0, 0, 2, 0, 0, 0, 0, 0, 0, 0, 7, 8, 9];
    assert_eq!(decode_pipeline(&plain).unwrap(), vec![7, 8]);
}

#[test]
fn decode_rejects_a_cut_payload() {
    let compressed = encode_pipeline(&sample()).unwrap();
    assert_eq!(
        decode_pipeline(&compressed[..compressed.len() - 1]),
        Err(CodingError::CorruptInput)
    );
}

#[test]
fn stage_names_and_tags() {
    let all = [Transform::BWT, Transform::MTF, Transform::RLE, Transform::ST, Transform::PPM];
    let names = ["BWT", "MTF", "RLE", "ST", "PPM"];
    for (i, t) in all.iter().enumerate() {
        assert_eq!(t.name(), names[i]);
        assert_eq!(t.tag(), i as u32);
        assert_eq!(Transform::from_tag(i as u32), Some(*t));
    }
    assert_eq!(Transform::from_tag(5), None);
}

#[test]
fn small_inputs_go_through_the_pipeline_to_known_bytes() {
    assert_eq!(
        encode_pipeline(&[]).unwrap(),
        vec![
            3, 0, 0, 0, 0, 0, 0, 0, 0, 0, 0, 0, 1, 0, 0, 0, 4, 0, 0, 0, 4, 0, 0, 0, 0, 0, 0, 0, 0,
            10, 160, 8,
        ]
    );
    assert_eq!(
        encode_pipeline(b"A").unwrap(),
        vec![
            3, 0, 0, 0, 0, 0, 0, 0, 0, 0, 0, 0, 1, 0, 0, 0, 4, 0, 0, 0, 11, 0, 0, 0, 0, 0, 0, 0, 1,
            105, 66, 17, 40, 28, 33, 70, 235, 179, 0,
        ]
    );
    assert_eq!(
        encode_pipeline(b"abracadabra").unwrap(),
        vec![
            3, 0, 0, 0, 0, 0, 0, 0, 0, 0, 0, 0, 1, 0, 0, 0, 4, 0, 0, 0, 23, 0, 0, 0, 0, 0, 0, 0, 1,
            105, 66, 17, 254, 3, 64, 164, 168, 41, 162, 12, 80, 18, 36, 129, 68, 206, 14, 115, 230,
            72, 104,
        ]
    );
    assert_eq!(encode_pipeline(&vec![b'A'; 1024]).unwrap().len(), 48);
}

#[test]
fn inputs_up_to_the_coders_limit_are_accepted() {
    assert!(accepts(0));
    assert!(accepts(1 << 20));
    // 1023 full blocks and a rest: 8 + n + 12 * 1024 = 2^30 + 1
    assert!(accepts((1 << 30) + 1 - 8 - 12 * 1024));
    assert!(!accepts((1 << 30) + 2 - 8 - 12 * 1024));
    assert!(!accepts(1 << 30));
    assert!(!accepts(usize::MAX));
}

#[test]
fn the_pipeline_is_at_the_crate_root_too() {
    let packed = comprs::encode_pipeline(b"to be or not to be").unwrap();
    assert_eq!(comprs::decode_pipeline(&packed), Ok(b"to be or not to be".to_vec()));
    assert_eq!(comprs::decode_pipeline(&[]), Err(comprs::CodingError::CorruptInput));
}

#[test]
fn envelope_is_written_and_read_back() {
    let t = TData { transforms: vec![Transform::MTF, Transform::RLE], buffer: vec![7, 8, 9] };
    let bytes = t.to_bytes();
    assert_eq!(
        bytes,
        vec![2, 0, 0, 0, 0, 0, 0, 0, 1, 0, 0, 0, 2, 0, 0, 0, 3, 0, 0, 0, 0, 0, 0, 0, 7, 8, 9]
    );
    let back = TData::from_bytes(&bytes).unwrap();
    assert_eq!(back.transforms, vec![Transform::MTF, Transform::RLE]);
    assert_eq!(back.buffer, vec![7, 8, 9]);
    assert!(matches!(TData::from_bytes(&bytes[..26]), Err(CodingError::CorruptInput)));
    assert!(matches!(TData::from_bytes(&bytes[..10]), Err(CodingError::CorruptInput)));
    let empty = TData { transforms: vec![], buffer: vec![] }.to_bytes();
    assert_eq!(empty, vec![0u8; 16]);
}

#[test]
fn encoding_never_fails_on_accepted_input() {
    for len in [0usize, 1, 2, 255, 256, 257, 4096] {
        let data: Vec<u8> = (0..len).map(|i| (i * 7 % 251) as u8).collect();
        assert!(accepts(len));
        let packed = encode_pipeline(&data);
        assert!(packed.is_ok());
        assert_eq!(decode_pipeline(&packed.unwrap()), Ok(data));
    }
}
