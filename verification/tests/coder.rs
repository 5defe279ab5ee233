use comprs::encodings::arithmetic_coder::base::{
    ArithmeticCoderBase, FULL_RANGE, HALF_RANGE, MAXIMUM_TOTAL, MINIMUM_RANGE, QUARTER_RANGE,
    STATE_MASK,
};
use comprs::encodings::arithmetic_coder::decoder::ArithmeticDecoder;
use comprs::encodings::arithmetic_coder::encoder::ArithmeticEncoder;
use comprs::encodings::arithmetic_coder::{FlatFrequencyTable, FrequencyTable, SimpleFrequencyTable};
use comprs::error::CodingError;

#[test]
fn simple_table_starts_at_zero() {
    let t = SimpleFrequencyTable::new(5);
    assert_eq!(t.get_symbol_limit(), 5);
    assert_eq!(t.total(), 0);
    for s in 0..5 {
        assert_eq!(t.get(s), 0);
        assert_eq!(t.get_low(s), 0);
        assert_eq!(t.get_high(s), 0);
    }
}

#[test]
fn simple_table_counts_and_sums() {
    let mut t = SimpleFrequencyTable::new(4);
    t.increment(1);
    t.increment(1);
    t.increment(3);
    t.set(2, 5);
    assert_eq!(t.frequencies, vec![0, 2, 5, 1]);
    assert_eq!(t.total(), 8);
    assert_eq!(t.total, 8);
    assert_eq!(t.get(2), 5);
    assert_eq!(t.get_low(0), 0);
    assert_eq!(t.get_high(0), 0);
    assert_eq!(t.get_low(2), 2);
    assert_eq!(t.get_high(2), 7);
    assert_eq!(t.get_low(3), 7);
    assert_eq!(t.get_high(3), 8);
    assert_eq!(t.cumulative(4), 8);
    assert_eq!(t.cumulative(9), 8);
    t.set(2, 0);
    assert_eq!(t.total(), 3);
    assert_eq!(t.get_high(3), t.total());
}

#[test]
fn flat_table_counts_every_symbol_once() {
    let t = FlatFrequencyTable::new(257);
    assert_eq!(t.get_symbol_limit(), 257);
    assert_eq!(t.total(), 257);
    assert_eq!(t.get(0), 1);
    assert_eq!(t.get(256), 1);
    assert_eq!(t.get_low(100), 100);
    assert_eq!(t.get_high(100), 101);
    assert_eq!(t.get_high(256), 257);
}

#[test]
fn coder_constants() {
    let e = ArithmeticEncoder::new(Vec::new(), 32);
    assert_eq!(e.full_range(), 1u64 << 32);
    assert_eq!(e.half_range(), 1u64 << 31);
    assert_eq!(e.quarter_range(), 1u64 << 30);
    assert_eq!(e.state_mask(), (1u64 << 32) - 1);
    assert_eq!(e.minimum_range(), (1u64 << 30) + 2);
    assert_eq!(e.maximum_total(), (1u64 << 30) + 2);
    assert_eq!(e.low(), 0);
    assert_eq!(e.high(), STATE_MASK);
    assert_eq!(FULL_RANGE, 0x1_0000_0000);
    assert_eq!(HALF_RANGE, 0x8000_0000);
    assert_eq!(QUARTER_RANGE, 0x4000_0000);
    assert_eq!(MINIMUM_RANGE, 0x4000_0002);
    assert_eq!(MAXIMUM_TOTAL, 0x4000_0002);

    let d = ArithmeticDecoder::new(&[], 32).unwrap();
    assert_eq!(d.low(), 0);
    assert_eq!(d.high(), STATE_MASK);
    assert_eq!(d.full_range(), FULL_RANGE);
    assert_eq!(d.half_range(), HALF_RANGE);
    assert_eq!(d.quarter_range(), QUARTER_RANGE);
    assert_eq!(d.state_mask(), STATE_MASK);
    assert_eq!(d.minimum_range(), MINIMUM_RANGE);
    assert_eq!(d.maximum_total(), MAXIMUM_TOTAL);
}

#[test]
fn finish_writes_a_set_bit_and_a_zero_byte() {
    let mut e = ArithmeticEncoder::new(Vec::new(), 32);
    e.finish().unwrap();
    assert_eq!(e.inner_ref(), vec![0x80]);

    let mut e = ArithmeticEncoder::new(vec![0xAB], 32);
    assert_eq!(e.inner_ref(), vec![0xAB]);
    e.finish().unwrap();
    assert_eq!(e.inner_ref(), vec![0xAB, 0x80]);
}

#[test]
fn one_symbol_of_the_flat_table() {
    // The slot of symbol 256 of 257 is [0xFF00FF00, 0xFFFFFFFF]: eight set bits
    // leave the registers, then come the closing bit and the zero byte.
    let table = FlatFrequencyTable::new(257);
    let mut e = ArithmeticEncoder::new(Vec::new(), 32);
    e.write(&table, 256).unwrap();
    assert_eq!(e.low(), 0x00FF_0000);
    assert_eq!(e.high(), 0xFFFF_FFFF);
    assert_eq!(e.inner_ref(), vec![0xFF]);
    e.finish().unwrap();
    let bytes = e.inner_ref();
    assert_eq!(bytes, vec![0xFF, 0x80]);

    let mut d = ArithmeticDecoder::new(&bytes, 32).unwrap();
    assert_eq!(d.code(), 0xFF80_0000);
    assert_eq!(d.read(&table), Ok(256));
    assert_eq!(d.low(), 0x00FF_0000);
    assert_eq!(d.high(), 0xFFFF_FFFF);
    assert_eq!(d.code(), 0x8000_0000);
}

#[test]
fn symbol_zero_of_the_flat_table() {
    // The slot of symbol 0 of 257 is [0, 0x00FF00FE]: eight clear bits leave.
    let table = FlatFrequencyTable::new(257);
    let mut e = ArithmeticEncoder::new(Vec::new(), 32);
    e.write(&table, 0).unwrap();
    assert_eq!(e.low(), 0);
    assert_eq!(e.high(), 0xFF00_FEFF);
    e.finish().unwrap();
    assert_eq!(e.inner_ref(), vec![0x00, 0x80]);
}

#[test]
fn update_is_the_same_as_write() {
    let table = FlatFrequencyTable::new(257);
    let mut a = ArithmeticEncoder::new(Vec::new(), 32);
    let mut b = ArithmeticEncoder::new(Vec::new(), 32);
    for s in [65u16, 66, 67, 256] {
        a.write(&table, s).unwrap();
        b.update(&table, s).unwrap();
        assert_eq!(a.low(), b.low());
        assert_eq!(a.high(), b.high());
    }
    assert_eq!(a.inner_ref(), b.inner_ref());
}

fn next(x: &mut u32) -> u32 {
    *x = x.wrapping_mul(1664525).wrapping_add(1013904223);
    *x >> 8
}

#[test]
fn interval_and_code_stay_in_range() {
    let mut table = SimpleFrequencyTable::new(16);
    for s in 0..16 {
        table.set(s, 1 + (s as usize % 5));
    }
    let mut seed: u32 = 99;
    let mut symbols: Vec<u16> = Vec::new();
    let mut e = ArithmeticEncoder::new(Vec::new(), 32);
    for _ in 0..5000 {
        let s = (next(&mut seed) % 16) as u16;
        symbols.push(s);
        e.write(&table, s).unwrap();
        let range = e.high() - e.low() + 1;
        assert!(MINIMUM_RANGE <= range && range <= FULL_RANGE);
        assert!(e.low() < HALF_RANGE && HALF_RANGE <= e.high());
        table.increment(s);
    }
    e.finish().unwrap();
    let bytes = e.inner_ref();

    let mut table = SimpleFrequencyTable::new(16);
    for s in 0..16 {
        table.set(s, 1 + (s as usize % 5));
    }
    let mut d = ArithmeticDecoder::new(&bytes, 32).unwrap();
    for expected in symbols {
        let s = d.read(&table).unwrap();
        assert_eq!(s, expected);
        let range = d.high() - d.low() + 1;
        assert!(MINIMUM_RANGE <= range && range <= FULL_RANGE);
        assert!(d.low() <= d.code() && d.code() <= d.high());
        table.increment(s);
    }
}

#[test]
fn skewed_table_takes_the_underflow_path() {
    // Two symbols of nearly equal weight keep the interval around the midpoint.
    let mut table = SimpleFrequencyTable::new(2);
    table.set(0, 1);
    table.set(1, 1);
    let pattern: Vec<u16> = vec![0, 1, 1, 1, 1, 1, 1, 1, 1, 1, 0, 1, 0, 0, 0, 0, 0, 0, 1, 0];
    let mut e = ArithmeticEncoder::new(Vec::new(), 32);
    for s in &pattern {
        e.write(&table, *s).unwrap();
    }
    e.finish().unwrap();
    let bytes = e.inner_ref();
    // each symbol halves the interval: the stream is the pattern itself
    assert_eq!(bytes, vec![0b0111_1111, 0b1101_0000, 0b0010_1000]);
    let mut d = ArithmeticDecoder::new(&bytes, 32).unwrap();
    for s in &pattern {
        assert_eq!(d.read(&table), Ok(*s));
    }
}

#[test]
fn decoder_reads_zeros_past_the_end() {
    let table = FlatFrequencyTable::new(257);
    let mut d = ArithmeticDecoder::new(&[], 32).unwrap();
    for _ in 0..10 {
        assert_eq!(d.read(&table), Ok(0));
        assert_eq!(d.code(), 0);
    }
    // corrupt input keeps the window inside the interval as well
    let noise: Vec<u8> = (0..64u32).map(|i| (i.wrapping_mul(2654435761) >> 13) as u8).collect();
    let mut d = ArithmeticDecoder::new(&noise, 32).unwrap();
    for _ in 0..200 {
        d.read(&table).unwrap();
        assert!(d.low() <= d.code() && d.code() <= d.high());
    }
    let mut d = ArithmeticDecoder::new(&[0xFF], 32).unwrap();
    assert_eq!(d.read(&table), Ok(255));
}

#[test]
fn errors_have_a_message() {
    assert_eq!(CodingError::Io.message(), "i/o failure");
    assert_eq!(CodingError::CorruptInput.message(), "corrupt input");
    assert_ne!(CodingError::Io, CodingError::CorruptInput);
}

#[test]
fn a_slot_around_the_midpoint_defers_two_bits() {
    // Table 3/2/3, symbol 1: the slot [0x60000000, 0x9FFFFFFF] straddles the
    // midpoint and is widened twice; no bit is written yet.
    let mut table = SimpleFrequencyTable::new(3);
    table.set(0, 3);
    table.set(1, 2);
    table.set(2, 3);
    let mut e = ArithmeticEncoder::new(Vec::new(), 32);
    assert_eq!(e.write(&table, 1), Ok(()));
    assert_eq!(e.low(), 0);
    assert_eq!(e.high(), 0xFFFF_FFFF);
    assert!(e.inner_ref().is_empty());
    // the closing bit settles the two deferred ones as its complement: 1 0 0, then the zero byte
    e.finish().unwrap();
    assert_eq!(e.inner_ref(), vec![0x80]);
    // the next settled bit comes first, the deferred ones after it
    let mut e = ArithmeticEncoder::new(Vec::new(), 32);
    e.write(&table, 1).unwrap();
    e.write(&table, 0).unwrap();
    e.finish().unwrap();
    let bytes = e.inner_ref();
    assert_eq!(bytes[0] >> 5, 0b011);
    let mut d = ArithmeticDecoder::new(&bytes, 32).unwrap();
    assert_eq!(d.read(&table), Ok(1));
    assert_eq!(d.read(&table), Ok(0));
}
