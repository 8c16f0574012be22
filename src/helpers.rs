//! Bit sources: a byte buffer read bit by bit, and a source of 32-bit words
//! read one bit at a time.
use vstd::prelude::*;

verus! {

/// Bit `j` (0 = least significant) of byte `b`.
pub open spec fn byte_bit(b: u8, j: int) -> bool {
    b & (1u8 << (j as u8)) != 0
}

/// The bits of a byte buffer in reading order: byte by byte, and within each
/// byte from bit 0 up to bit 7.
pub open spec fn bits_of(bytes: Seq<u8>) -> Seq<bool> {
    Seq::new(8 * bytes.len(), |k: int| byte_bit(bytes[k / 8], k % 8))
}

/// Bit-wise iteration through a byte buffer.
pub struct BitIter {
    buff: Vec<u8>,
    i: usize,
    j: u8,
}

impl BitIter {
    /// Index in `bits_of(buffer)` of the next bit to be read.
    pub closed spec fn pos(&self) -> int {
        8 * self.i + self.j
    }

    /// The buffer read from.
    pub closed spec fn buffer(&self) -> Seq<u8> {
        self.buff@
    }

    /// The invariant that every method keeps.
    pub closed spec fn wf(&self) -> bool {
        &&& self.j < 8
        &&& self.i <= self.buff@.len()
        &&& self.i == self.buff@.len() ==> self.j == 0
    }

    /// The bits still to come.
    pub closed spec fn view(&self) -> Seq<bool> {
        bits_of(self.buff@).subrange(self.pos(), 8 * self.buff@.len() as int)
    }

    /// A `BitIter` that has read nothing yet from `buff`.
    pub closed spec fn fresh(buff: Vec<u8>) -> BitIter {
        BitIter { buff, i: 0, j: 0 }
    }

    /// Create a new `BitIter` over the provided buffer.
    pub fn new(buff: Vec<u8>) -> (r: Self)
        ensures
            r == BitIter::fresh(buff),
            r.wf(),
            r.buffer() == buff@,
            r@ == bits_of(buff@),
    {
        let r = BitIter { buff, i: 0, j: 0 };
        assert(r@ =~= bits_of(r.buff@));
        r
    }

    /// The next bit, or `None` once the buffer is exhausted.
    pub fn next(&mut self) -> (r: Option<bool>)
        requires
            old(self).wf(),
        ensures
            final(self).wf(),
            final(self).buffer() == old(self).buffer(),
            old(self)@.len() == 0 ==> r is None && final(self)@ == old(self)@,
            old(self)@.len() > 0 ==> r == Some(old(self)@[0]) && final(self)@ == old(self)@.drop_first(),
    {
        if self.i >= self.buff.len() {
            return None;
        }
        let ghost p = self.pos();
        assert(p / 8 == self.i as int && p % 8 == self.j as int);
        let v = self.buff[self.i] & (1u8 << self.j) != 0;
        if self.j < 7 {
            self.j = self.j + 1;
        } else {
            self.i = self.i + 1;
            self.j = 0;
        }
        assert(self@ =~= old(self)@.drop_first());
        Some(v)
    }

    /// Reads every remaining bit, in order.
    pub fn collect_bits(&mut self) -> (r: Vec<bool>)
        requires
            old(self).wf(),
        ensures
            final(self).wf(),
            final(self).buffer() == old(self).buffer(),
            final(self)@.len() == 0,
            r@ == old(self)@,
    {
        let ghost orig = self@;
        let mut out: Vec<bool> = Vec::new();
        assert(out@ + self@ =~= orig);
        loop
            invariant
                self.wf(),
                self.buffer() == old(self).buffer(),
                out@ + self@ =~= orig,
            ensures
                self.wf(),
                self.buffer() == old(self).buffer(),
                self@.len() == 0,
                out@ == orig,
            decreases self@.len(),
        {
            let ghost before = self@;
            match self.next() {
                Some(b) => {
                    out.push(b);
                    assert(out@ + self@ =~= orig) by {
                        assert(before =~= seq![b] + self@);
                    }
                },
                None => {
                    assert(out@ + self@ =~= out@);
                    break;
                },
            }
        }
        out
    }
}

impl From<Vec<u8>> for BitIter {
    /// Convert a byte buffer into a `BitIter` over it.
    fn from(value: Vec<u8>) -> (r: Self) {
        BitIter::new(value)
    }
}

impl vstd::std_specs::convert::FromSpecImpl<Vec<u8>> for BitIter {
    open spec fn obeys_from_spec() -> bool {
        true
    }

    open spec fn from_spec(v: Vec<u8>) -> Self {
        BitIter::fresh(v)
    }
}

} // verus!

verus! {

/// Bit `k` (0 = least significant) of a 32-bit word.
pub open spec fn word_bit(w: u32, k: int) -> bool {
    (w >> (k as u32)) & 1 == 1
}

/// The bits of a 32-bit word, least significant first.
pub open spec fn word_bits(w: u32) -> Seq<bool> {
    Seq::new(32, |k: int| word_bit(w, k))
}

/// Starting a buffer over: every `BitIter` freshly made over a buffer is well
/// formed and yields the same bits, eight for each byte.
pub proof fn lemma_buffer_replay(buff: Vec<u8>)
    ensures
        BitIter::fresh(buff).wf(),
        BitIter::fresh(buff)@ == bits_of(buff@),
        bits_of(buff@).len() == 8 * buff@.len(),
{
    assert(BitIter::fresh(buff)@ =~= bits_of(buff@));
}

/// A source of 32-bit words, such as a random number generator.
pub trait WordSource {
    /// The next 32-bit output of the source.
    fn next_word(&mut self) -> u32;
}

proof fn lemma_shift_one(b: u32)
    ensures
        (b & 1 != 0) == word_bit(b, 0),
        forall|k: u32| k < 31 ==> #[trigger] ((b >> 1u32) >> k) & 1 == (b >> (k + 1)) & 1,
{
    assert((b & 1 != 0) == ((b >> 0u32) & 1 == 1)) by (bit_vector);
    assert forall|k: u32| k < 31 implies #[trigger] ((b >> 1u32) >> k) & 1 == (b >> (k + 1)) & 1 by {
        assert(k < 31 ==> ((b >> 1u32) >> k) & 1 == (b >> (k + 1)) & 1) by (bit_vector);
    }
}

/// Bit-wise iteration over the words of a `WordSource`.
///
/// Words are drawn one at a time, only when no drawn bit is left, and handed
/// out least significant bit first; exactly the requested number of bits is
/// produced.
pub struct BitsFromRng<W> {
    rng: W,
    remaining: usize,
    buffer: u32,
    buffered: u8,
    items: Ghost<nat>,
    drawn: Ghost<nat>,
}

impl<W: WordSource> BitsFromRng<W> {
    /// How many bits are still to be produced.
    pub closed spec fn remaining(&self) -> nat {
        self.remaining as nat
    }

    /// The bits of the last word drawn that are still to be handed out.
    pub closed spec fn pending(&self) -> Seq<bool> {
        Seq::new(self.buffered as nat, |k: int| word_bit(self.buffer, k))
    }

    /// How many bits were asked for at construction.
    pub closed spec fn items(&self) -> nat {
        self.items@
    }

    /// How many words have been drawn from the source.
    pub closed spec fn drawn(&self) -> nat {
        self.drawn@
    }

    /// The invariant that every method keeps.
    pub closed spec fn wf(&self) -> bool {
        &&& self.buffered < 32
        &&& self.remaining <= self.items@
        &&& 32 * self.drawn@ == (self.items@ - self.remaining) + self.buffered
    }

    /// The word source kept.
    pub closed spec fn source(&self) -> W {
        self.rng
    }

    /// Words are drawn only as bits are needed: 32 for each word drawn, of
    /// which those not yet handed out are pending.
    pub proof fn lemma_words_drawn(&self)
        requires
            self.wf(),
        ensures
            32 * self.drawn() == (self.items() - self.remaining()) + self.pending().len(),
            self.pending().len() < 32,
    {
    }

    /// Once every requested bit was produced, exactly one word was drawn for
    /// each 32 bits or part of 32 bits: `(items + 31) / 32` words, none when
    /// no bit was requested.
    pub proof fn lemma_drained_words(&self)
        requires
            self.wf(),
            self.remaining() == 0,
        ensures
            self.drawn() == (self.items() + 31) / 32,
    {
    }

    /// Prepare to produce `items` bits from `rng`; nothing is drawn yet.
    pub fn new(rng: W, items: usize) -> (r: Self)
        ensures
            r.wf(),
            r.source() == rng,
            r.remaining() == items,
            r.items() == items,
            r.drawn() == 0,
            r.pending().len() == 0,
    {
        BitsFromRng { rng, remaining: items, buffer: 0, buffered: 0, items: Ghost(items as nat), drawn: Ghost(0) }
    }

    /// Hands out the lowest pending bit.
    fn hand_out(&mut self) -> (r: bool)
        requires
            old(self).buffered <= 32,
            old(self).remaining <= old(self).items@,
            32 * old(self).drawn@ == (old(self).items@ - old(self).remaining) + old(self).buffered,
            old(self).remaining() > 0,
            old(self).pending().len() > 0,
        ensures
            final(self).wf(),
            final(self).source() == old(self).source(),
            final(self).items() == old(self).items(),
            final(self).drawn() == old(self).drawn(),
            final(self).remaining() == old(self).remaining() - 1,
            r == old(self).pending()[0],
            final(self).pending() == old(self).pending().drop_first(),
    {
        let ghost before = self.pending();
        let ghost w = self.buffer;
        proof {
            lemma_shift_one(self.buffer);
        }
        let result = self.buffer & 1 != 0;
        self.remaining = self.remaining - 1;
        self.buffer = self.buffer >> 1;
        self.buffered = self.buffered - 1;
        assert(self.pending() =~= before.drop_first()) by {
            assert forall|k: int| 0 <= k < self.buffered implies #[trigger] self.pending()[k] == before[k + 1] by {
                assert(((w >> 1u32) >> (k as u32)) & 1 == (w >> ((k as u32) + 1)) & 1);
            }
        }
        result
    }

    /// Takes `w`, a word just drawn from the source: hands out its lowest
    /// bit and keeps the other 31 pending.
    pub fn take_word(&mut self, w: u32) -> (r: bool)
        requires
            old(self).wf(),
            old(self).remaining() > 0,
            old(self).pending().len() == 0,
        ensures
            final(self).wf(),
            final(self).source() == old(self).source(),
            final(self).items() == old(self).items(),
            final(self).remaining() == old(self).remaining() - 1,
            final(self).drawn() == old(self).drawn() + 1,
            r == word_bit(w, 0),
            final(self).pending() == word_bits(w).drop_first(),
    {
        self.buffer = w;
        self.buffered = 32;
        proof {
            self.drawn = Ghost(self.drawn@ + 1);
        }
        assert(self.pending() =~= word_bits(w));
        self.hand_out()
    }

    /// The next bit, drawing a new word from the source only when no drawn
    /// bit is left; `None` once the requested number of bits was produced.
    /// Where no word is needed the source is left as it was.
    pub fn next(&mut self) -> (r: Option<bool>)
        requires
            old(self).wf(),
        ensures
            final(self).wf(),
            final(self).items() == old(self).items(),
            old(self).remaining() == 0 ==> {
                &&& r is None
                &&& *final(self) == *old(self)
            },
            old(self).remaining() > 0 ==> r is Some && final(self).remaining() == old(self).remaining() - 1,
            old(self).remaining() > 0 && old(self).pending().len() > 0 ==> {
                &&& r == Some(old(self).pending()[0])
                &&& final(self).pending() == old(self).pending().drop_first()
                &&& final(self).drawn() == old(self).drawn()
                &&& final(self).source() == old(self).source()
            },
            old(self).remaining() > 0 && old(self).pending().len() == 0 ==> {
                &&& final(self).drawn() == old(self).drawn() + 1
                &&& exists|w: u32|
                    r == Some(#[trigger] word_bit(w, 0)) && final(self).pending() == word_bits(w).drop_first()
            },
    {
        if self.remaining == 0 {
            return None;
        }
        if self.buffered == 0 {
            let w = self.rng.next_word();
            Some(self.take_word(w))
        } else {
            Some(self.hand_out())
        }
    }

    /// Gives the word source back.
    pub fn into_source(self) -> (r: W)
        ensures
            r == self.source(),
    {
        self.rng
    }

    /// Produces every remaining bit, in order: the pending bits, then those
    /// of each word drawn, least significant first. The source is left as it
    /// was when the pending bits are enough.
    pub fn collect_bits(&mut self) -> (r: Vec<bool>)
        requires
            old(self).wf(),
        ensures
            final(self).wf(),
            final(self).items() == old(self).items(),
            final(self).remaining() == 0,
            r@.len() == old(self).remaining(),
            exists|ws: Seq<u32>|
                #![trigger words_bits(ws)]
                ws.len() == final(self).drawn() - old(self).drawn() && r@ + final(self).pending()
                    == old(self).pending() + words_bits(ws),
            old(self).remaining() <= old(self).pending().len() ==> {
                &&& final(self).source() == old(self).source()
                &&& final(self).drawn() == old(self).drawn()
            },
    {
        let ghost p0 = self.pending();
        let ghost n0 = self.remaining();
        let ghost d0 = self.drawn();
        let ghost s0 = self.source();
        let ghost mut ws: Seq<u32> = Seq::empty();
        let mut out: Vec<bool> = Vec::new();
        assert(out@ + self.pending() =~= p0 + words_bits(ws));
        while self.remaining > 0
            invariant
                self.wf(),
                self.items() == old(self).items(),
                out@.len() + self.remaining() == n0,
                ws.len() == self.drawn() - d0,
                out@ + self.pending() == p0 + words_bits(ws),
                n0 <= p0.len() ==> self.source() == s0 && ws.len() == 0,
            decreases self.remaining(),
        {
            let ghost before_out = out@;
            let ghost before_p = self.pending();
            let b: bool;
            if self.buffered == 0 {
                proof {
                    if n0 <= p0.len() {
                        assert((before_out + before_p).len() == p0.len());
                    }
                }
                let w = self.rng.next_word();
                b = self.take_word(w);
                proof {
                    lemma_words_bits_push(ws, w);
                    ws = ws.push(w);
                }
                out.push(b);
                assert(out@ + self.pending() =~= before_out + word_bits(w));
            } else {
                b = self.hand_out();
                out.push(b);
                assert(out@ + self.pending() =~= before_out + before_p);
            }
        }
        assert(ws.len() == self.drawn() - d0 && out@ + self.pending() == p0 + words_bits(ws));
        out
    }
}

/// The bits of a sequence of words, word by word, each least significant
/// bit first.
pub open spec fn words_bits(ws: Seq<u32>) -> Seq<bool> {
    Seq::new(32 * ws.len(), |i: int| word_bit(ws[i / 32], i % 32))
}

proof fn lemma_words_bits_push(ws: Seq<u32>, w: u32)
    ensures
        words_bits(ws.push(w)) == words_bits(ws) + word_bits(w),
{
    assert forall|i: int| 0 <= i < 32 * ws.len() + 32 implies #[trigger] words_bits(ws.push(w))[i] == (
    words_bits(ws) + word_bits(w))[i] by {
        if i >= 32 * ws.len() {
            assert((i - 32 * ws.len()) % 32 == i % 32 && i / 32 == ws.len());
        }
    }
    assert(words_bits(ws.push(w)) =~= words_bits(ws) + word_bits(w));
}

} // verus!
