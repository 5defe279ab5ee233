use comprs::encodings::arithmetic_coder::decoder::ArithmeticDecoder;
use comprs::encodings::arithmetic_coder::encoder::ArithmeticEncoder;
use comprs::encodings::arithmetic_coder::FrequencyTable;
use comprs::encodings::ppm::context::Context;
use comprs::encodings::ppm::model::{populate_contexts, PPMModel};
use comprs::encodings::ppm::{
    apply, compress, decode_symbol, decompress, encode_symbol, mutate_history, reduce,
    traverse_context, EOF, ESCAPE_SYMBOL, MAX_SYMBOLS, NUM_BITS, ORDER, SYMBOL_LIMIT,
};

fn lorem() -> Vec<u8> {
    String::from("\
        Lorem Ipsum is simply dummy text of the printing and typesetting industry.\
        Lorem Ipsum has been the industry's standard dummy text ever since the 1500s,\
        when an unknown printer took a galley of type and scrambled it to make a type \
        specimen book. It has survived not only five centuries, but also the leap into \
        electronic typesetting, remaining essentially unchanged. It was popularised in \
        the 1960s with the release of Letraset sheets containing Lorem Ipsum passages, \
        and more recently with desktop publishing software like Aldus PageMaker including \
        versions of Lorem Ipsum.").into_bytes()
}

#[test]
fn mod_test_compression() {
    let original: Vec<u8> = lorem();

    let intermediate = apply(&original).unwrap();
    let restored = reduce(&intermediate).unwrap();

    assert_eq!(original, restored);
}

#[test]
fn compression_at_order_three() {
    let original: Vec<u8> = lorem();
    let intermediate = compress(&original, 3).unwrap();
    let restored = decompress(&intermediate, 3).unwrap();
    assert_eq!(original, restored);
}

#[test]
fn compression_at_every_small_order() {
    let original: Vec<u8> = lorem();
    for order in 0..6u8 {
        let intermediate = compress(&original, order).unwrap();
        assert!(intermediate.len() < original.len());
        assert_eq!(decompress(&intermediate, order).unwrap(), original);
    }
}

#[test]
fn constants() {
    assert_eq!(EOF, 256);
    assert_eq!(ESCAPE_SYMBOL, 256);
    assert_eq!(SYMBOL_LIMIT, 257);
    assert_eq!(ORDER, 2);
    assert_eq!(NUM_BITS, 32);
    assert_eq!(MAX_SYMBOLS, (1usize << 30) + 1);
}

#[test]
fn nothing_compresses_to_the_end_marker() {
    // An escape in the fresh root costs nothing; the end marker in the flat
    // table is eight set bits; then the closing bit and the zero byte.
    assert_eq!(apply(&[]).unwrap(), vec![0xFF, 0x80]);
    assert_eq!(reduce(&[0xFF, 0x80]).unwrap(), Vec::<u8>::new());
}

#[test]
fn one_byte_roundtrip() {
    let packed = apply(&[0x41]).unwrap();
    assert_eq!(reduce(&packed).unwrap(), vec![0x41]);
}

#[test]
fn every_byte_value_roundtrip() {
    let mut data: Vec<u8> = Vec::new();
    for round in 0..4u8 {
        for b in 0..=255u8 {
            data.push(b ^ round);
        }
    }
    let packed = apply(&data).unwrap();
    assert_eq!(reduce(&packed).unwrap(), data);
}

#[test]
fn repetitive_input_shrinks() {
    let data = vec![b'A'; 1024];
    let packed = apply(&data).unwrap();
    assert!(packed.len() < 64);
    assert_eq!(reduce(&packed).unwrap(), data);
}

#[test]
fn history_keeps_the_last_symbols() {
    let mut history: Vec<u16> = Vec::new();
    mutate_history(1, 2, &mut history);
    assert_eq!(history, vec![1]);
    mutate_history(2, 2, &mut history);
    assert_eq!(history, vec![1, 2]);
    mutate_history(3, 2, &mut history);
    assert_eq!(history, vec![2, 3]);
    let mut one: Vec<u16> = vec![9];
    mutate_history(4, 1, &mut one);
    assert_eq!(one, vec![4]);
    let mut none: Vec<u16> = Vec::new();
    mutate_history(65, 0, &mut none);
    assert!(none.is_empty());
}

#[test]
fn new_context_is_empty() {
    let c = Context::new(257);
    assert_eq!(c.frequencies.frequencies, vec![0usize; 257]);
    assert_eq!(c.frequencies.total, 0);
    assert!(c.sub_ctxs.is_empty());
    assert!(c.child(5).is_none());
}

#[test]
fn new_model_counts_the_escape_once() {
    let m = PPMModel::new(2, 257, 256);
    assert_eq!(m.order, 2);
    assert_eq!(m.symbol_limit, 257);
    assert_eq!(m.escape_symbol, 256);
    assert_eq!(m.context.frequencies.get(256), 1);
    assert_eq!(m.context.frequencies.total(), 1);
    assert!(m.context.sub_ctxs.is_empty());
    assert_eq!(m.order_minus1_freqs.total(), 257);
}

#[test]
fn increment_counts_in_every_suffix_context() {
    let mut m = PPMModel::new(2, 257, 256);
    m.increment_contexts(&[], 10);
    assert_eq!(m.context.frequencies.get(10), 1);
    assert_eq!(m.context.frequencies.total(), 2);
    assert!(m.context.sub_ctxs.is_empty());

    m.increment_contexts(&[10], 11);
    assert_eq!(m.context.frequencies.get(11), 1);
    assert_eq!(m.context.frequencies.total(), 3);
    let after10 = traverse_context(&m.context, &[10]).unwrap();
    assert_eq!(after10.frequencies.get(11), 1);
    assert_eq!(after10.frequencies.get(256), 1);
    assert_eq!(after10.frequencies.total(), 2);

    m.increment_contexts(&[10, 11], 12);
    assert_eq!(m.context.frequencies.total(), 4);
    let after11 = traverse_context(&m.context, &[11]).unwrap();
    assert_eq!(after11.frequencies.get(12), 1);
    assert_eq!(after11.frequencies.total(), 2);
    let after1011 = traverse_context(&m.context, &[10, 11]).unwrap();
    assert_eq!(after1011.frequencies.get(12), 1);
    assert_eq!(after1011.frequencies.get(256), 1);
    assert_eq!(after1011.frequencies.total(), 2);
    assert!(traverse_context(&m.context, &[12]).is_none());
    assert!(traverse_context(&m.context, &[11, 10]).is_none());
    assert!(traverse_context(&m.context, &[]).is_some());
}

#[test]
fn populate_creates_the_contexts_on_the_way() {
    let mut root = Context::new(257);
    root.frequencies.increment(256);
    populate_contexts(&mut root, &[1, 2, 3], 7, 256, 257);
    assert_eq!(root.frequencies.total(), 1);
    let one = traverse_context(&root, &[1]).unwrap();
    assert_eq!(one.frequencies.total(), 1);
    assert_eq!(one.frequencies.get(256), 1);
    let three = traverse_context(&root, &[1, 2, 3]).unwrap();
    assert_eq!(three.frequencies.get(7), 1);
    assert_eq!(three.frequencies.get(256), 1);
    assert_eq!(three.frequencies.total(), 2);
    populate_contexts(&mut root, &[1, 2, 3], 7, 256, 257);
    let three = traverse_context(&root, &[1, 2, 3]).unwrap();
    assert_eq!(three.frequencies.get(7), 2);
}

#[test]
fn every_context_counts_its_escape() {
    fn check(c: &Context) {
        assert!(c.frequencies.get(256) >= 1);
        assert!(c.frequencies.total() >= 1);
        let mut sum = 0usize;
        for f in &c.frequencies.frequencies {
            sum += *f;
        }
        assert_eq!(sum, c.frequencies.total());
        for child in c.sub_ctxs.values() {
            check(child);
        }
    }
    let data = lorem();
    let mut m = PPMModel::new(3, 257, 256);
    let mut history: Vec<u16> = Vec::new();
    for b in data {
        m.increment_contexts(&history, b as u16);
        mutate_history(b as u16, 3, &mut history);
    }
    check(&m.context);
}

#[test]
fn symbols_go_through_the_same_contexts() {
    let symbols: Vec<u16> = vec![5, 6, 5, 6, 5, 7, 5, 6, 256];
    let mut model = PPMModel::new(2, 257, 256);
    let mut history: Vec<u16> = Vec::new();
    let mut encoder = ArithmeticEncoder::new(Vec::new(), 32);
    for s in &symbols {
        encode_symbol(&model, &history, *s, &mut encoder).unwrap();
        if *s != 256 {
            model.increment_contexts(&history, *s);
            mutate_history(*s, 2, &mut history);
        }
    }
    encoder.finish().unwrap();
    let bytes = encoder.inner_ref();

    let mut model = PPMModel::new(2, 257, 256);
    let mut history: Vec<u16> = Vec::new();
    let mut decoder = ArithmeticDecoder::new(&bytes, 32).unwrap();
    for s in &symbols {
        assert_eq!(decode_symbol(&model, &history, &mut decoder), Ok(*s));
        if *s != 256 {
            model.increment_contexts(&history, *s);
            mutate_history(*s, 2, &mut history);
        }
    }
}

#[test]
fn small_inputs_compress_to_known_bytes() {
    assert_eq!(apply(b"A").unwrap(), vec![65, 190]);
    assert_eq!(apply(b"AB").unwrap(), vec![65, 95, 254, 128]);
    assert_eq!(
        apply(b"abracadabra").unwrap(),
        vec![97, 79, 231, 45, 187, 236, 19, 57, 239, 128]
    );
    assert_eq!(apply(b"aaaaaaaaaaaaaaaa").unwrap(), vec![96, 163, 238, 90, 64]);
    assert_eq!(
        compress(b"abracadabra", 0).unwrap(),
        vec![97, 79, 231, 45, 22, 75, 189, 240, 254]
    );
    assert_eq!(reduce(&[65, 190]).unwrap(), b"A".to_vec());
    assert_eq!(reduce(&[96, 163, 238, 90, 64]).unwrap(), b"aaaaaaaaaaaaaaaa".to_vec());
    assert_eq!(
        decompress(&[97, 79, 231, 45, 22, 75, 189, 240, 254], 0).unwrap(),
        b"abracadabra".to_vec()
    );
}
