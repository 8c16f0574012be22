use rngcheck::helpers::BitIter;
use rngcheck::nist::{check_p_value, BlockCounter, MonobitCounter, P_THRESHOLD_BITS};
use rngcheck::Error;
use special::Gamma;

const SPEC_VECTOR: &str =
    "1100100100001111110110101010001000100001011010001100001000110100110001001100011001100010100010111000";

fn spec_bits() -> Vec<bool> {
    SPEC_VECTOR.chars().map(|c| c == '1').collect()
}

fn monobit(bits: &[bool]) -> MonobitCounter {
    let mut c = MonobitCounter::new();
    for &b in bits {
        c.push(b);
    }
    c
}

fn blocks(bits: &[bool], block_len: usize) -> BlockCounter {
    let mut c = BlockCounter::new(block_len);
    for &b in bits {
        c.push(b);
    }
    c
}

fn monobit_p(c: &MonobitCounter) -> Result<f32, Error> {
    let s = c.statistic()? as f32 / libm::sqrtf(c.sample_size() as f32);
    let p = libm::erfcf(s / libm::sqrtf(2.0));
    check_p_value(p.to_bits()).map(f32::from_bits)
}

fn block_p(c: &BlockCounter) -> Result<f32, Error> {
    let x2 = c.sum_sq_dev() as f32 / c.block_len() as f32;
    let p = 1.0 - (x2 / 2.0).inc_gamma(c.num_blocks() as f32 / 2.0);
    check_p_value(p.to_bits()).map(f32::from_bits)
}

#[test]
fn monobit_spec_vector_counts() {
    let c = monobit(&spec_bits());
    assert_eq!(c.sample_size(), 100);
    assert_eq!(c.abs_sum(), 16);
    assert_eq!(c.statistic(), Ok(16));
    let p = monobit_p(&c).expect("Monobit test failed");
    assert!((p - 0.109599).abs() < 1e-5);
}

#[test]
fn monobit_short_sample_refused() {
    for n in [0usize, 1, 50, 99] {
        let bits = vec![true; n];
        assert_eq!(monobit(&bits).statistic(), Err(Error::InsufficientSampleSize(n)));
    }
    assert_eq!(monobit(&vec![false; 100]).statistic(), Ok(100));
}

#[test]
fn monobit_constant_buffers_fail() {
    for byte in [0xFFu8, 0x00] {
        let mut it = BitIter::new(vec![byte; 128]);
        let c = MonobitCounter::count_buffer(&mut it);
        assert_eq!(c.sample_size(), 1024);
        assert_eq!(c.abs_sum(), 1024);
        assert!(matches!(monobit_p(&c), Err(Error::BadPValue(_))));
    }
}

#[test]
fn monobit_repeatable() {
    let buff: Vec<u8> = (0u8..100).map(|i| i.wrapping_mul(37) ^ 0x5A).collect();
    let a = MonobitCounter::count_buffer(&mut BitIter::new(buff.clone()));
    let b = MonobitCounter::count_buffer(&mut BitIter::new(buff));
    assert_eq!(a.statistic(), b.statistic());
    assert_eq!(monobit_p(&a).map(f32::to_bits), monobit_p(&b).map(f32::to_bits));
}

#[test]
fn block_example_counts() {
    let mut it = BitIter::new(vec![0b01100110u8, 0b00000010]);
    let mut bits = Vec::new();
    for _ in 0..10 {
        bits.push(it.next().unwrap());
    }
    let c = blocks(&bits, 3);
    assert_eq!(c.num_blocks(), 3);
    assert_eq!(c.sum_sq_dev(), 3);
    let p = block_p(&c).expect("Block frequency test failed");
    assert!((p - 0.801252).abs() < 1e-5);
}

#[test]
fn block_spec_vector_counts() {
    let c = blocks(&spec_bits(), 10);
    assert_eq!(c.block_len(), 10);
    assert_eq!(c.num_blocks(), 10);
    assert_eq!(c.sum_sq_dev(), 72);
    let p = block_p(&c).expect("Block frequency test failed");
    assert!((p - 0.706438).abs() < 1e-5);
}

#[test]
fn block_biased_fails() {
    let mut bits = vec![true; 12];
    bits.extend(vec![false; 10]);
    let c = blocks(&bits, 10);
    assert_eq!(c.num_blocks(), 2);
    assert_eq!(c.sum_sq_dev(), 136);
    assert!(matches!(block_p(&c), Err(Error::BadPValue(_))));
}

#[test]
fn block_partial_block_dropped() {
    let c = blocks(&[true; 9], 10);
    assert_eq!(c.num_blocks(), 0);
    assert_eq!(c.sum_sq_dev(), 0);
    let c = blocks(&[true, false, true, true, true], 2);
    assert_eq!(c.num_blocks(), 2);
    assert_eq!(c.sum_sq_dev(), 0 + 4);
}

#[test]
fn block_repeatable() {
    let buff: Vec<u8> = (0u8..100).map(|i| i.wrapping_mul(91) ^ 0xC3).collect();
    let a = BlockCounter::count_buffer(&mut BitIter::new(buff.clone()), 10);
    let b = BlockCounter::count_buffer(&mut BitIter::new(buff), 10);
    assert_eq!(a.num_blocks(), 80);
    assert_eq!((a.num_blocks(), a.sum_sq_dev()), (b.num_blocks(), b.sum_sq_dev()));
    assert_eq!(block_p(&a).map(f32::to_bits), block_p(&b).map(f32::to_bits));
}

#[test]
fn p_value_threshold() {
    assert_eq!(P_THRESHOLD_BITS, 0.01f32.to_bits());
    assert_eq!(check_p_value(0.01f32.to_bits()), Ok(0.01f32.to_bits()));
    assert_eq!(check_p_value(1.0f32.to_bits()), Ok(1.0f32.to_bits()));
    assert_eq!(check_p_value(f32::INFINITY.to_bits()), Ok(f32::INFINITY.to_bits()));
    let below = f32::from_bits(0.01f32.to_bits() - 1);
    assert_eq!(check_p_value(below.to_bits()), Err(Error::BadPValue(below.to_bits())));
    assert_eq!(check_p_value(0.0f32.to_bits()), Err(Error::BadPValue(0)));
    assert_eq!(check_p_value((-0.0f32).to_bits()), Err(Error::BadPValue((-0.0f32).to_bits())));
    assert_eq!(check_p_value((-0.5f32).to_bits()), Err(Error::BadPValue((-0.5f32).to_bits())));
}

#[test]
fn p_value_nan_fails() {
    for nan in [f32::NAN, -f32::NAN, f32::from_bits(0x7F80_0001)] {
        assert!(nan.is_nan());
        assert_eq!(check_p_value(nan.to_bits()), Err(Error::BadPValue(nan.to_bits())));
    }
}
