//! Bit streams: expanding bytes into bits and packing bits back into bytes.
use vstd::prelude::*;

use crate::bits::{bit_of, bit_to_num, has};

verus! {

/// The eight bits of `b`, most-significant first.
pub open spec fn byte_bits(b: u8) -> Seq<bool> {
    Seq::new(8, |i: int| bit_of(b, (7 - i) as u8))
}

/// The bits of `bytes`, eight per byte, each byte most-significant bit first.
pub open spec fn expand(bytes: Seq<u8>) -> Seq<bool>
    decreases bytes.len(),
{
    if bytes.len() == 0 {
        Seq::empty()
    } else {
        byte_bits(bytes[0]) + expand(bytes.drop_first())
    }
}

/// The number that `bits` spell, folding `value * 2 + bit` in arrival order.
pub open spec fn bits_value(bits: Seq<bool>) -> nat
    decreases bits.len(),
{
    if bits.len() == 0 {
        0
    } else {
        bits_value(bits.drop_last()) * 2 + (if bits.last() { 1nat } else { 0nat })
    }
}

/// The bytes packed from `bits`, eight bits each; a trailing partial byte is dropped.
pub open spec fn pack(bits: Seq<bool>) -> Seq<u8> {
    Seq::new(bits.len() / 8, |k: int| bits_value(bits.subrange(8 * k, 8 * k + 8)) as u8)
}

/// Bit `i` of the expansion is bit `7 - i % 8` of byte `i / 8`.
pub proof fn lemma_expand_index(bytes: Seq<u8>)
    ensures
        expand(bytes).len() == 8 * bytes.len(),
        forall|i: int|
            0 <= i < 8 * bytes.len() ==> #[trigger] expand(bytes)[i] == byte_bits(bytes[i / 8])[i % 8],
    decreases bytes.len(),
{
    if bytes.len() > 0 {
        let tail = bytes.drop_first();
        lemma_expand_index(tail);
        assert forall|i: int| 0 <= i < 8 * bytes.len() implies #[trigger] expand(bytes)[i] == byte_bits(
            bytes[i / 8],
        )[i % 8] by {
            if i >= 8 {
                assert(expand(bytes)[i] == expand(tail)[i - 8]);
                assert((i - 8) / 8 == i / 8 - 1);
                assert((i - 8) % 8 == i % 8);
                assert(tail[(i - 8) / 8] == bytes[i / 8]);
            }
        }
    }
}

/// Expanding a sequence from position `c` yields the bits of byte `c` followed
/// by the expansion from `c + 1`.
pub proof fn lemma_expand_skip(bytes: Seq<u8>, c: int)
    requires
        0 <= c < bytes.len(),
    ensures
        expand(bytes.skip(c)) == byte_bits(bytes[c]) + expand(bytes.skip(c + 1)),
{
    assert(bytes.skip(c).drop_first() =~= bytes.skip(c + 1));
}

/// An eight-bit value is below 256.
proof fn lemma_bits_value_bound(bits: Seq<bool>)
    ensures
        bits.len() <= 8 ==> bits_value(bits) < 256,
        bits.len() <= 7 ==> bits_value(bits) < 128,
        bits.len() <= 6 ==> bits_value(bits) < 64,
        bits.len() <= 5 ==> bits_value(bits) < 32,
        bits.len() <= 4 ==> bits_value(bits) < 16,
        bits.len() <= 3 ==> bits_value(bits) < 8,
        bits.len() <= 2 ==> bits_value(bits) < 4,
        bits.len() <= 1 ==> bits_value(bits) < 2,
    decreases bits.len(),
{
    if bits.len() > 0 {
        lemma_bits_value_bound(bits.drop_last());
    }
}

/// Packing the eight bits of a byte gives the byte back.
pub proof fn lemma_byte_bits_value(b: u8)
    ensures
        bits_value(byte_bits(b)) == b as nat,
{
    let s = byte_bits(b);
    reveal_with_fuel(bits_value, 9);
    assert(s.drop_last() =~= s.subrange(0, 7));
    assert(s.subrange(0, 7).drop_last() =~= s.subrange(0, 6));
    assert(s.subrange(0, 6).drop_last() =~= s.subrange(0, 5));
    assert(s.subrange(0, 5).drop_last() =~= s.subrange(0, 4));
    assert(s.subrange(0, 4).drop_last() =~= s.subrange(0, 3));
    assert(s.subrange(0, 3).drop_last() =~= s.subrange(0, 2));
    assert(s.subrange(0, 2).drop_last() =~= s.subrange(0, 1));
    assert(s.subrange(0, 1).drop_last() =~= Seq::<bool>::empty());
    assert(b as int == ((b >> 7u8) & 1u8) * 128 + ((b >> 6u8) & 1u8) * 64 + ((b >> 5u8) & 1u8) * 32
        + ((b >> 4u8) & 1u8) * 16 + ((b >> 3u8) & 1u8) * 8 + ((b >> 2u8) & 1u8) * 4 + ((b >> 1u8) & 1u8) * 2
        + ((b >> 0u8) & 1u8))
        by (bit_vector);
    assert forall|k: u8| k < 8 implies (if #[trigger] bit_of(b, k) { 1int } else { 0int }) == ((b >> k) & 1u8)
        as int by {
        assert(((b >> k) & 1u8) == 1u8 || ((b >> k) & 1u8) == 0u8) by (bit_vector);
    }
}

/// Packing the expansion of a byte sequence gives the sequence back.
pub proof fn lemma_pack_expand(bytes: Seq<u8>)
    ensures
        pack(expand(bytes)) == bytes,
{
    lemma_expand_index(bytes);
    let e = expand(bytes);
    assert forall|k: int| 0 <= k < bytes.len() implies #[trigger] pack(e)[k] == bytes[k] by {
        assert forall|j: int| 0 <= j < 8 implies #[trigger] e.subrange(8 * k, 8 * k + 8)[j] == byte_bits(
            bytes[k],
        )[j] by {
            assert((8 * k + j) / 8 == k);
            assert((8 * k + j) % 8 == j);
            assert(e[8 * k + j] == byte_bits(bytes[(8 * k + j) / 8])[(8 * k + j) % 8]);
        }
        assert(e.subrange(8 * k, 8 * k + 8) =~= byte_bits(bytes[k]));
        lemma_byte_bits_value(bytes[k]);
    }
    assert(pack(e) =~= bytes);
}

/// A bit sequence of length `n` packs into exactly `n / 8` bytes, byte `k` made
/// of bits `8k .. 8k + 8`; the last `n % 8` bits are dropped.
pub proof fn lemma_pack_partial(bits: Seq<bool>)
    ensures
        pack(bits).len() == bits.len() / 8,
        forall|k: int|
            0 <= k < bits.len() / 8 ==> #[trigger] pack(bits)[k] as nat == bits_value(
                bits.subrange(8 * k, 8 * k + 8),
            ),
        pack(bits) == pack(bits.subrange(0, bits.len() - bits.len() % 8)),
{
    let n = bits.len() as int;
    let cut = bits.subrange(0, n - n % 8);
    assert forall|k: int| 0 <= k < n / 8 implies #[trigger] pack(bits)[k] as nat == bits_value(
        bits.subrange(8 * k, 8 * k + 8),
    ) by {
        lemma_bits_value_bound(bits.subrange(8 * k, 8 * k + 8));
    }
    assert forall|k: int| 0 <= k < n / 8 implies #[trigger] pack(cut)[k] == pack(bits)[k] by {
        assert(cut.subrange(8 * k, 8 * k + 8) =~= bits.subrange(8 * k, 8 * k + 8));
    }
    assert(pack(cut) =~= pack(bits));
}

/// Taking eight bits off the front of a stream takes one byte off its packing.
pub proof fn lemma_pack_skip8(bits: Seq<bool>)
    requires
        bits.len() >= 8,
    ensures
        pack(bits).len() > 0,
        pack(bits)[0] as nat == bits_value(bits.subrange(0, 8)),
        pack(bits.skip(8)) == pack(bits).drop_first(),
{
    lemma_bits_value_bound(bits.subrange(0, 8));
    let t = bits.skip(8);
    assert forall|k: int| 0 <= k < t.len() / 8 implies #[trigger] pack(t)[k] == pack(bits)[k + 1] by {
        assert(t.subrange(8 * k, 8 * k + 8) =~= bits.subrange(8 * (k + 1), 8 * (k + 1) + 8));
    }
    assert(pack(t) =~= pack(bits).drop_first());
}

/// A source of bits, pulled one at a time.
pub trait BitSource {
    /// The source's internal consistency.
    spec fn wf(&self) -> bool;

    /// The bits that the source has yet to give.
    spec fn rest(&self) -> Seq<bool>;

    /// Pulls the next bit, or `None` once the source is exhausted.
    fn next(&mut self) -> (r: Option<bool>)
        requires
            old(self).wf(),
        ensures
            final(self).wf(),
            old(self).rest().len() == 0 ==> r is None && final(self).rest() == old(self).rest(),
            old(self).rest().len() > 0 ==> r == Some(old(self).rest()[0]) && final(self).rest() == old(
                self,
            ).rest().drop_first(),
    ;
}

/// The bit expander: yields the bits of a byte sequence, eight per byte,
/// most-significant bit first.
pub struct MessageCoder {
    source: Vec<u8>,
    cursor: usize,
    element: Option<u8>,
    bit_index: u8,
}

impl MessageCoder {
    /// An expander over the bytes of `source`.
    pub fn new(source: Vec<u8>) -> (r: MessageCoder)
        ensures
            r.wf(),
            r.rest() == expand(source@),
    {
        let r = MessageCoder { source, cursor: 0, element: None, bit_index: 8 };
        assert(source@.skip(0) =~= source@);
        r
    }
}

impl BitSource for MessageCoder {
    closed spec fn wf(&self) -> bool {
        &&& self.cursor <= self.source.len()
        &&& self.bit_index <= 8
        &&& (self.element is None && self.bit_index < 8) ==> self.cursor == self.source.len()
    }

    closed spec fn rest(&self) -> Seq<bool> {
        let tail = expand(self.source@.skip(self.cursor as int));
        match self.element {
            Some(e) => if self.bit_index < 8 {
                byte_bits(e).skip(self.bit_index as int) + tail
            } else {
                tail
            },
            None => tail,
        }
    }

    fn next(&mut self) -> (r: Option<bool>) {
        if self.bit_index >= 8 {
            self.bit_index = 0;
            if self.cursor < self.source.len() {
                proof {
                    lemma_expand_skip(self.source@, self.cursor as int);
                }
                self.element = Some(self.source[self.cursor]);
                self.cursor = self.cursor + 1;
                assert(byte_bits(self.element->0).skip(0) =~= byte_bits(self.element->0));
            } else {
                self.element = None;
            }
        }
        match self.element {
            Some(value) => {
                let ghost before = self.rest();
                let result = has(value, 7 - self.bit_index);
                self.bit_index = self.bit_index + 1;
                assert(self.rest() =~= before.drop_first());
                Some(result)
            },
            None => {
                assert(self.source@.skip(self.cursor as int) =~= Seq::<u8>::empty());
                None
            },
        }
    }
}

/// A bit source over a plain sequence of bits.
pub struct BitSeq {
    bits: Vec<bool>,
    pos: usize,
}

impl BitSeq {
    /// A source that yields `bits` in order.
    pub fn new(bits: Vec<bool>) -> (r: BitSeq)
        ensures
            r.wf(),
            r.rest() == bits@,
    {
        let r = BitSeq { bits, pos: 0 };
        assert(bits@.skip(0) =~= bits@);
        r
    }
}

impl BitSource for BitSeq {
    closed spec fn wf(&self) -> bool {
        self.pos <= self.bits.len()
    }

    closed spec fn rest(&self) -> Seq<bool> {
        self.bits@.skip(self.pos as int)
    }

    fn next(&mut self) -> (r: Option<bool>) {
        if self.pos < self.bits.len() {
            let b = self.bits[self.pos];
            self.pos = self.pos + 1;
            assert(self.rest() =~= old(self).rest().drop_first());
            Some(b)
        } else {
            None
        }
    }
}

/// The bit packer: yields one byte for each eight bits of its source, and
/// stops at the first byte that the source cannot complete.
pub struct MessageDecoder<S: BitSource> {
    source: S,
}

impl<S: BitSource> MessageDecoder<S> {
    /// The decoder's internal consistency.
    pub closed spec fn wf(&self) -> bool {
        self.source.wf()
    }

    /// The bytes that the decoder has yet to give.
    pub closed spec fn pending(&self) -> Seq<u8> {
        pack(self.source.rest())
    }

    /// A packer over the bits of `source`.
    pub fn new(source: S) -> (r: MessageDecoder<S>)
        requires
            source.wf(),
        ensures
            r.wf(),
            r.pending() == pack(source.rest()),
    {
        MessageDecoder { source }
    }

    /// Pulls the next byte, or `None` once fewer than eight bits remain
    /// (those are consumed and dropped).
    pub fn next(&mut self) -> (r: Option<u8>)
        requires
            old(self).wf(),
        ensures
            final(self).wf(),
            old(self).pending().len() == 0 ==> r is None && final(self).pending().len() == 0,
            old(self).pending().len() > 0 ==> r == Some(old(self).pending()[0]) && final(self).pending()
                == old(self).pending().drop_first(),
    {
        let ghost start = self.source.rest();
        let mut value: u8 = 0;
        let mut i: u8 = 0;
        while i < 8
            invariant
                i <= 8,
                start == old(self).source.rest(),
                self.source.wf(),
                i <= start.len(),
                self.source.rest() == start.skip(i as int),
                value as nat == bits_value(start.subrange(0, i as int)),
            decreases 8 - i,
        {
            proof {
                lemma_bits_value_bound(start.subrange(0, i as int));
            }
            match self.source.next() {
                Some(b) => {
                    assert(start.subrange(0, i + 1).drop_last() =~= start.subrange(0, i as int));
                    value = value * 2 + bit_to_num(b);
                    i = i + 1;
                    assert(start.skip(i - 1).drop_first() =~= start.skip(i as int));
                },
                None => {
                    assert(start.skip(i as int).len() == 0);
                    assert(start.len() < 8);
                    assert(pack(start).len() == 0);
                    return None;
                },
            }
        }
        proof {
            lemma_pack_skip8(start);
        }
        Some(value)
    }
}

} // verus!
