use rand::rngs::OsRng;
use rand::RngCore;
use rngcheck::helpers::{BitIter, BitsFromRng, WordSource};

struct OsWords(OsRng);

impl WordSource for OsWords {
    fn next_word(&mut self) -> u32 {
        self.0.next_u32()
    }
}

/// Counts up from a start value, and how many words were asked for.
struct Counting {
    next: u32,
    calls: usize,
}

impl WordSource for Counting {
    fn next_word(&mut self) -> u32 {
        let w = self.next;
        self.next = self.next.wrapping_add(1);
        self.calls += 1;
        w
    }
}

fn all_bits(mut it: BitIter) -> Vec<bool> {
    let mut v = Vec::new();
    while let Some(b) = it.next() {
        v.push(b);
    }
    v
}

#[test]
fn bit_iter() {
    let tests = &[(
        &[0b0000_0001u8, 0b0000_0010, 0b0100_0000, 0b1000_0000],
        &[
            true, false, false, false, false, false, false, false, false, true, false, false,
            false, false, false, false, false, false, false, false, false, false, true, false,
            false, false, false, false, false, false, false, true,
        ],
    )];

    for (buff, bits) in tests {
        let i = BitIter::new(buff.to_vec());
        let v: Vec<bool> = all_bits(i);
        assert_eq!(&v[..], &bits[..]);
    }
}

#[test]
fn from_rng() {
    let bits: Vec<bool> = BitsFromRng::new(OsWords(OsRng), 123).collect_bits();
    assert_eq!(bits.len(), 123);
}

#[test]
fn buffer_yields_eight_bits_per_byte() {
    let buff = vec![0xA5u8, 0x00, 0xFF, 0x3C, 0x81];
    let v = all_bits(BitIter::new(buff.clone()));
    assert_eq!(v.len(), 8 * buff.len());
}

#[test]
fn buffer_replay_is_identical() {
    let buff = vec![0x12u8, 0x34, 0x56, 0x78, 0x9A];
    let first = BitIter::new(buff.clone()).collect_bits();
    let second = all_bits(BitIter::from(buff.clone()));
    assert_eq!(first, second);
    assert_eq!(first.len(), 40);
}

#[test]
fn empty_buffer_is_exhausted() {
    let mut it = BitIter::new(Vec::new());
    assert_eq!(it.next(), None);
    assert_eq!(it.next(), None);
}

#[test]
fn buffer_bit_order_low_bit_first() {
    let v = all_bits(BitIter::new(vec![0b0110_0110u8, 0b0000_0010]));
    let expected = [
        false, true, true, false, false, true, true, false, false, true, false, false, false,
        false, false, false,
    ];
    assert_eq!(&v[..], &expected[..]);
}

#[test]
fn rng_yields_exact_count_at_word_boundaries() {
    for k in [0usize, 1, 31, 32, 33, 64, 65] {
        let mut bits = BitsFromRng::new(Counting { next: 7, calls: 0 }, k);
        let v = bits.collect_bits();
        assert_eq!(v.len(), k);
        assert_eq!(bits.next(), None);
        let src = bits.into_source();
        assert_eq!(src.calls, (k + 31) / 32);
    }
}

#[test]
fn rng_bits_low_bit_first() {
    let mut bits = BitsFromRng::new(Counting { next: 0b1011, calls: 0 }, 36);
    let v = bits.collect_bits();
    assert_eq!(&v[..5], &[true, true, false, true, false]);
    assert!(v[4..32].iter().all(|b| !b));
    // The second word is 0b1100.
    assert_eq!(&v[32..], &[false, false, true, true]);
}

#[test]
fn rng_draws_only_when_needed() {
    let mut bits = BitsFromRng::new(Counting { next: 1, calls: 0 }, 40);
    for _ in 0..32 {
        assert!(bits.next().is_some());
    }
    let src_calls_after_word = {
        let v = bits.collect_bits();
        assert_eq!(v.len(), 8);
        bits.into_source().calls
    };
    assert_eq!(src_calls_after_word, 2);
}

#[test]
fn rng_take_word_hands_out_low_bit_first() {
    let mut bits = BitsFromRng::new(Counting { next: 100, calls: 0 }, 4);
    assert!(!bits.take_word(0b0110));
    assert_eq!(bits.next(), Some(true));
    assert_eq!(bits.next(), Some(true));
    assert_eq!(bits.next(), Some(false));
    assert_eq!(bits.next(), None);
    assert_eq!(bits.into_source().calls, 0);
}

#[test]
fn rng_no_draw_after_exhaustion() {
    let mut bits = BitsFromRng::new(Counting { next: 0, calls: 0 }, 2);
    assert_eq!(bits.next(), Some(false));
    assert_eq!(bits.next(), Some(false));
    for _ in 0..40 {
        assert_eq!(bits.next(), None);
    }
    assert_eq!(bits.into_source().calls, 1);
}

#[test]
fn rng_new_draws_nothing() {
    let bits = BitsFromRng::new(Counting { next: 0, calls: 0 }, 1000);
    assert_eq!(bits.into_source().calls, 0);
}
