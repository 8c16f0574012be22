//! NIST SP 800-22 frequency tests: the counts and sums they are computed
//! from, the sample-size rule and the decision on the p-value.
use crate::helpers::{bits_of, BitIter};
use crate::Error;
use vstd::prelude::*;

verus! {

/// Fewest bits on which the Monobit test is meaningful.
pub const MIN_SAMPLE_SIZE: usize = 100;

/// Encoding of `0.01f32`, the least acceptable p-value.
pub const P_THRESHOLD_BITS: u32 = 0x3C23_D70A;

/// Encoding of `f32::INFINITY`.
pub const INFINITY_BITS: u32 = 0x7F80_0000;

/// Whether the binary32 value encoded by `bits` is a NaN.
pub open spec fn is_nan_bits(bits: u32) -> bool {
    bits & 0x7FFF_FFFF > INFINITY_BITS
}

/// Whether the binary32 value encoded by `bits` is at least `0.01`. The sign
/// bit set means a negative value (or `-0.0`); above `INFINITY_BITS` lie the
/// NaNs; among the remaining, non-negative values the order of the values is
/// the order of their encodings.
pub open spec fn p_accepted(bits: u32) -> bool {
    P_THRESHOLD_BITS <= bits <= INFINITY_BITS
}

/// Decides on a p-value given by its binary32 encoding: accepted when it is
/// at least `0.01`; rejected otherwise, NaN included.
pub fn check_p_value(p_bits: u32) -> (r: Result<u32, Error>)
    ensures
        r == if p_accepted(p_bits) {
            Ok::<u32, Error>(p_bits)
        } else {
            Err::<u32, Error>(Error::BadPValue(p_bits))
        },
{
    if P_THRESHOLD_BITS <= p_bits && p_bits <= INFINITY_BITS {
        Ok(p_bits)
    } else {
        Err(Error::BadPValue(p_bits))
    }
}

/// A NaN p-value never passes.
pub proof fn lemma_nan_rejected(p_bits: u32)
    requires
        is_nan_bits(p_bits),
    ensures
        !p_accepted(p_bits),
{
    assert(p_bits & 0x7FFF_FFFF > 0x7F80_0000u32 ==> !(0x3C23_D70Au32 <= p_bits <= 0x7F80_0000u32))
        by (bit_vector);
}

/// Number of `true` bits in `s`.
pub open spec fn ones_in(s: Seq<bool>) -> nat
    decreases s.len(),
{
    if s.len() == 0 {
        0
    } else {
        ones_in(s.drop_last()) + if s.last() {
            1nat
        } else {
            0nat
        }
    }
}

/// The Monobit sum, each `true` counted +1 and each `false` -1.
pub open spec fn monobit_sum(s: Seq<bool>) -> int {
    2 * ones_in(s) - s.len()
}

/// The absolute value of the Monobit sum.
pub open spec fn abs_monobit_sum(s: Seq<bool>) -> nat {
    if monobit_sum(s) >= 0 {
        monobit_sum(s) as nat
    } else {
        (-monobit_sum(s)) as nat
    }
}

/// What the integer part of the Monobit test gives on `s`: the absolute sum,
/// or the sample-size failure.
pub open spec fn monobit_outcome(s: Seq<bool>) -> Result<usize, Error> {
    if s.len() < MIN_SAMPLE_SIZE {
        Err(Error::InsufficientSampleSize(s.len() as usize))
    } else {
        Ok(abs_monobit_sum(s) as usize)
    }
}

proof fn lemma_ones_push(s: Seq<bool>, b: bool)
    ensures
        ones_in(s.push(b)) == ones_in(s) + if b {
            1nat
        } else {
            0nat
        },
        ones_in(s) <= s.len(),
    decreases s.len(),
{
    assert(s.push(b).drop_last() =~= s);
    if s.len() > 0 {
        lemma_ones_push(s.drop_last(), s.last());
        assert(s.drop_last().push(s.last()) =~= s);
    }
}

/// Running counts of the Monobit test over the bits read so far.
pub struct MonobitCounter {
    n: usize,
    ones: usize,
    seen: Ghost<Seq<bool>>,
}

impl MonobitCounter {
    /// The bits read so far.
    pub closed spec fn view(&self) -> Seq<bool> {
        self.seen@
    }

    /// The invariant that every method keeps.
    pub closed spec fn wf(&self) -> bool {
        &&& self.n == self.seen@.len()
        &&& self.ones == ones_in(self.seen@)
        &&& self.ones <= self.n
    }

    /// A counter that has read no bit.
    pub fn new() -> (r: Self)
        ensures
            r.wf(),
            r@ == Seq::<bool>::empty(),
    {
        MonobitCounter { n: 0, ones: 0, seen: Ghost(Seq::empty()) }
    }

    /// Reads one more bit.
    pub fn push(&mut self, bit: bool)
        requires
            old(self).wf(),
            old(self)@.len() < usize::MAX,
        ensures
            final(self).wf(),
            final(self)@ == old(self)@.push(bit),
    {
        proof {
            lemma_ones_push(self.seen@, bit);
        }
        self.n = self.n + 1;
        if bit {
            self.ones = self.ones + 1;
        }
        self.seen = Ghost(self.seen@.push(bit));
    }

    /// How many bits were read.
    pub fn sample_size(&self) -> (r: usize)
        requires
            self.wf(),
        ensures
            r == self@.len(),
    {
        self.n
    }

    /// The absolute value of the Monobit sum of the bits read.
    pub fn abs_sum(&self) -> (r: usize)
        requires
            self.wf(),
        ensures
            r == abs_monobit_sum(self@),
    {
        let zeros = self.n - self.ones;
        if self.ones >= zeros {
            self.ones - zeros
        } else {
            zeros - self.ones
        }
    }

    /// The absolute Monobit sum, or `InsufficientSampleSize` with the number
    /// of bits read when it is under `MIN_SAMPLE_SIZE`.
    pub fn statistic(&self) -> (r: Result<usize, Error>)
        requires
            self.wf(),
        ensures
            r == monobit_outcome(self@),
    {
        if self.n < MIN_SAMPLE_SIZE {
            Err(Error::InsufficientSampleSize(self.n))
        } else {
            Ok(self.abs_sum())
        }
    }

    /// Reads every remaining bit of `bits` into a new counter.
    pub fn count_buffer(bits: &mut BitIter) -> (r: Self)
        requires
            old(bits).wf(),
            old(bits)@.len() < usize::MAX,
        ensures
            r.wf(),
            r@ == old(bits)@,
            final(bits).wf(),
            final(bits)@.len() == 0,
    {
        let ghost orig = bits@;
        let mut c = MonobitCounter::new();
        assert(c@ + bits@ =~= orig);
        loop
            invariant
                bits.wf(),
                c.wf(),
                c@ + bits@ =~= orig,
                orig.len() < usize::MAX,
            ensures
                bits.wf(),
                c.wf(),
                bits@.len() == 0,
                c@ == orig,
            decreases bits@.len(),
        {
            let ghost before = bits@;
            match bits.next() {
                Some(b) => {
                    c.push(b);
                    assert(c@ + bits@ =~= orig) by {
                        assert(before =~= seq![b] + bits@);
                    }
                },
                None => {
                    assert(c@ + bits@ =~= c@);
                    break;
                },
            }
        }
        c
    }
}

/// Deviation of block `b` (bits `b*len .. b*len + len`) of `s` from an even
/// split: twice its number of ones minus its length.
pub open spec fn block_dev(s: Seq<bool>, len: nat, b: nat) -> int {
    2 * ones_in(s.subrange((b * len) as int, (b * len + len) as int)) - len
}

/// Sum of the squared deviations of the first `m` blocks of length `len`.
/// The chi-square statistic of the Block Frequency test is this sum divided
/// by `len`, since `4 * len * (ones / len - 1/2)^2 == (2 * ones - len)^2 / len`.
pub open spec fn sq_dev_sum(s: Seq<bool>, len: nat, m: nat) -> nat
    decreases m,
{
    if m == 0 {
        0
    } else {
        sq_dev_sum(s, len, (m - 1) as nat) + (block_dev(s, len, (m - 1) as nat) * block_dev(
            s,
            len,
            (m - 1) as nat,
        )) as nat
    }
}

/// Number of complete blocks of length `len` in `s`; a partial block at the
/// end is not counted.
pub open spec fn num_blocks(s: Seq<bool>, len: nat) -> nat
    recommends
        len > 0,
{
    s.len() / len
}

proof fn lemma_sq_dev_sum_push(s: Seq<bool>, x: bool, len: nat, m: nat)
    requires
        m * len <= s.len(),
    ensures
        sq_dev_sum(s.push(x), len, m) == sq_dev_sum(s, len, m),
    decreases m,
{
    if m > 0 {
        let b = (m - 1) as nat;
        assert(b * len + len == m * len) by (nonlinear_arith)
            requires
                b == m - 1,
        ;
        assert(b * len <= m * len) by (nonlinear_arith)
            requires
                b == m - 1,
        ;
        lemma_sq_dev_sum_push(s, x, len, b);
        assert(s.push(x).subrange((b * len) as int, (b * len + len) as int) =~= s.subrange(
            (b * len) as int,
            (b * len + len) as int,
        ));
    }
}

/// Running counts of the Block Frequency test over the bits read so far.
pub struct BlockCounter {
    block_len: usize,
    blocks: usize,
    cur_n: usize,
    cur_ones: usize,
    sq_sum: u128,
    seen: Ghost<Seq<bool>>,
}

impl BlockCounter {
    /// The bits read so far.
    pub closed spec fn view(&self) -> Seq<bool> {
        self.seen@
    }

    /// The block length.
    pub closed spec fn len(&self) -> nat {
        self.block_len as nat
    }

    /// The invariant that every method keeps.
    pub closed spec fn wf(&self) -> bool {
        let l = self.block_len as nat;
        &&& l > 0
        &&& self.cur_n < l
        &&& self.blocks * l + self.cur_n == self.seen@.len()
        &&& self.cur_ones == ones_in(self.seen@.subrange(self.blocks * l, self.seen@.len() as int))
        &&& self.cur_ones <= self.cur_n
        &&& self.sq_sum == sq_dev_sum(self.seen@, l, self.blocks as nat)
        &&& self.sq_sum <= self.blocks * l * l
    }

    /// A counter for blocks of `block_len` bits that has read no bit.
    pub fn new(block_len: usize) -> (r: Self)
        requires
            block_len > 0,
        ensures
            r.wf(),
            r.len() == block_len,
            r@ == Seq::<bool>::empty(),
    {
        let r = BlockCounter {
            block_len,
            blocks: 0,
            cur_n: 0,
            cur_ones: 0,
            sq_sum: 0,
            seen: Ghost(Seq::empty()),
        };
        assert(r.seen@.subrange(0, 0) =~= Seq::<bool>::empty());
        assert(ones_in(Seq::<bool>::empty()) == 0);
        assert(r.blocks * (block_len as nat) * (block_len as nat) == 0) by (nonlinear_arith)
            requires
                r.blocks == 0,
        ;
        r
    }

    /// Reads one more bit; a block that it completes is added to the sum.
    pub fn push(&mut self, bit: bool)
        requires
            old(self).wf(),
            old(self)@.len() < usize::MAX,
        ensures
            final(self).wf(),
            final(self).len() == old(self).len(),
            final(self)@ == old(self)@.push(bit),
    {
        let ghost s = self.seen@;
        let ghost l = self.block_len as nat;
        let ghost start = (self.blocks * l) as int;
        let ghost s2 = s.push(bit);
        proof {
            lemma_ones_push(s.subrange(start, s.len() as int), bit);
            assert(s2.subrange(start, s2.len() as int) =~= s.subrange(start, s.len() as int).push(
                bit,
            ));
            lemma_sq_dev_sum_push(s, bit, l, self.blocks as nat);
        }
        self.cur_n = self.cur_n + 1;
        if bit {
            self.cur_ones = self.cur_ones + 1;
        }
        self.seen = Ghost(s2);
        if self.cur_n == self.block_len {
            let two_ones = 2 * (self.cur_ones as u128);
            let len = self.block_len as u128;
            let d: u128 = if two_ones >= len {
                two_ones - len
            } else {
                len - two_ones
            };
            let ghost b = self.blocks as nat;
            proof {
                assert(start + l == s2.len());
                assert(block_dev(s2, l, b) == 2 * self.cur_ones - l);
                assert(d <= l);
                assert(d * d <= l * l) by (nonlinear_arith)
                    requires
                        d <= l,
                ;
                assert((b + 1) * l == b * l + l) by (nonlinear_arith);
                assert((b + 1) * l <= u64::MAX);
                assert(b + 1 <= (b + 1) * l) by (nonlinear_arith)
                    requires
                        l >= 1,
                ;
                assert((b + 1) * l * l <= u64::MAX * u64::MAX) by (nonlinear_arith)
                    requires
                        (b + 1) * l <= u64::MAX,
                        l <= u64::MAX,
                ;
                assert(b * l * l + l * l == (b + 1) * l * l) by (nonlinear_arith);
                assert(d * d == block_dev(s2, l, b) * block_dev(s2, l, b)) by (nonlinear_arith)
                    requires
                        d == block_dev(s2, l, b) || d == -block_dev(s2, l, b),
                ;
            }
            assert(d * d <= u128::MAX);
            assert(self.sq_sum + d * d <= u128::MAX);
            self.sq_sum = self.sq_sum + d * d;
            self.blocks = self.blocks + 1;
            self.cur_n = 0;
            self.cur_ones = 0;
            proof {
                assert(s2.subrange(s2.len() as int, s2.len() as int) =~= Seq::<bool>::empty());
                assert(self.blocks * l == start + l) by (nonlinear_arith)
                    requires
                        self.blocks == b + 1,
                        start == b * l,
                ;
            }
        }
    }

    /// The block length.
    pub fn block_len(&self) -> (r: usize)
        requires
            self.wf(),
        ensures
            r == self.len(),
    {
        self.block_len
    }

    /// The number of complete blocks read.
    pub fn num_blocks(&self) -> (r: usize)
        requires
            self.wf(),
        ensures
            r == num_blocks(self@, self.len()),
    {
        proof {
            vstd::arithmetic::div_mod::lemma_fundamental_div_mod_converse(
                self.seen@.len() as int,
                self.block_len as int,
                self.blocks as int,
                self.cur_n as int,
            );
        }
        self.blocks
    }

    /// The sum of the squared deviations of the complete blocks read.
    pub fn sum_sq_dev(&self) -> (r: u128)
        requires
            self.wf(),
        ensures
            r == sq_dev_sum(self@, self.len(), num_blocks(self@, self.len())),
    {
        proof {
            vstd::arithmetic::div_mod::lemma_fundamental_div_mod_converse(
                self.seen@.len() as int,
                self.block_len as int,
                self.blocks as int,
                self.cur_n as int,
            );
        }
        self.sq_sum
    }

    /// Reads every remaining bit of `bits` into a new counter for blocks of
    /// `block_len` bits.
    pub fn count_buffer(bits: &mut BitIter, block_len: usize) -> (r: Self)
        requires
            block_len > 0,
            old(bits).wf(),
            old(bits)@.len() < usize::MAX,
        ensures
            r.wf(),
            r.len() == block_len,
            r@ == old(bits)@,
            final(bits).wf(),
            final(bits)@.len() == 0,
    {
        let ghost orig = bits@;
        let mut c = BlockCounter::new(block_len);
        assert(c@ + bits@ =~= orig);
        loop
            invariant
                bits.wf(),
                c.wf(),
                c.len() == block_len,
                c@ + bits@ =~= orig,
                orig.len() < usize::MAX,
            ensures
                bits.wf(),
                c.wf(),
                c.len() == block_len,
                bits@.len() == 0,
                c@ == orig,
            decreases bits@.len(),
        {
            let ghost before = bits@;
            match bits.next() {
                Some(b) => {
                    c.push(b);
                    assert(c@ + bits@ =~= orig) by {
                        assert(before =~= seq![b] + bits@);
                    }
                },
                None => {
                    assert(c@ + bits@ =~= c@);
                    break;
                },
            }
        }
        c
    }
}

/// Below `MIN_SAMPLE_SIZE` bits the Monobit test always fails with the
/// number of bits read, whatever their values.
pub proof fn lemma_small_sample_refused(s: Seq<bool>)
    requires
        s.len() < MIN_SAMPLE_SIZE,
    ensures
        monobit_outcome(s) == Err::<usize, Error>(Error::InsufficientSampleSize(s.len() as usize)),
{
}

/// Running either test twice over the same buffer gives the same counts and
/// sums, hence the same outcome.
pub proof fn lemma_repeatable(a: Vec<u8>, b: Vec<u8>, block_len: nat)
    requires
        a@ == b@,
        block_len > 0,
    ensures
        monobit_outcome(bits_of(a@)) == monobit_outcome(bits_of(b@)),
        num_blocks(bits_of(a@), block_len) == num_blocks(bits_of(b@), block_len),
        sq_dev_sum(bits_of(a@), block_len, num_blocks(bits_of(a@), block_len)) == sq_dev_sum(
            bits_of(b@),
            block_len,
            num_blocks(bits_of(b@), block_len),
        ),
{
}

} // verus!
