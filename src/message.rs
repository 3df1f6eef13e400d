//! Reading a message out of an image, and writing one into it.
use vstd::prelude::*;

use vstd::utf8::{decode_utf8, encode_utf8, valid_utf8};

use crate::bits::{bit_of, has, setbit, with_lsb};
use crate::canvas::{dimensions, get_pixel, image_dims, image_pixels, put_pixel, PixelBuffer};
use crate::scan::{lemma_scan_order_coverage, scan_order, PixelPositionIterator, TripleIterator};
use crate::stream::{expand, pack, BitSource, MessageCoder, MessageDecoder};

verus! {

#[verifier::external_type_specification]
#[verifier::external_body]
pub struct ExFromUtf8Error(std::string::FromUtf8Error);

/// Relies on `String::from_utf8`: it succeeds exactly when the bytes are valid
/// UTF-8, and the string it returns holds the characters that they encode.
pub assume_specification[ std::string::String::from_utf8 ](vec: Vec<u8>) -> (r: Result<
    String,
    std::string::FromUtf8Error,
>)
    ensures
        r is Ok <==> valid_utf8(vec@),
        r matches Ok(s) ==> s@ == decode_utf8(vec@),
;

/// The bit stream that an image carries: the least-significant bits of the
/// first three channels of each pixel, pixels in order, channels in order.
pub open spec fn image_bits(pixels: Seq<Seq<u8>>) -> Seq<bool> {
    Seq::new(3 * pixels.len(), |i: int| bit_of(pixels[i / 3][i % 3], 0))
}

/// The bytes of `s` before its first zero byte (all of `s` if it has none).
pub open spec fn before_zero(s: Seq<u8>) -> Seq<u8>
    decreases s.len(),
{
    if s.len() == 0 {
        Seq::empty()
    } else if s[0] == 0 {
        Seq::empty()
    } else {
        seq![s[0]] + before_zero(s.drop_first())
    }
}

/// The message bytes that a reader finds in an image with these pixels.
pub open spec fn hidden_bytes(pixels: Seq<Seq<u8>>) -> Seq<u8> {
    before_zero(pack(image_bits(pixels)))
}

/// The bits of an image, pulled pixel by pixel in scan order.
pub struct ImageBits<'a> {
    buf: &'a PixelBuffer,
    positions: PixelPositionIterator,
    triple: TripleIterator<bool>,
}

impl<'a> ImageBits<'a> {
    /// A bit source over the whole of `buf`.
    pub fn new(buf: &'a PixelBuffer) -> (r: ImageBits<'a>)
        ensures
            r.wf(),
            r.rest() == image_bits(image_pixels(*buf)),
    {
        let dims = dimensions(buf);
        let positions = PixelPositionIterator::new(dims);
        // an exhausted triple: the first pull moves on to the first pixel
        let mut triple = TripleIterator::new([false, false, false]);
        let _ = triple.next();
        let _ = triple.next();
        let _ = triple.next();
        let r = ImageBits { buf, positions, triple };
        assert(r.triple.rest().len() == 0);
        assert(image_bits(image_pixels(*buf)).subrange(0, 0) =~= r.triple.rest());
        assert(image_bits(image_pixels(*buf)).skip(0) =~= image_bits(image_pixels(*buf)));
        r
    }
}

impl<'a> BitSource for ImageBits<'a> {
    closed spec fn wf(&self) -> bool {
        let dims = image_dims(*self.buf);
        let pixels = image_pixels(*self.buf);
        let p = self.positions.index();
        let t = self.triple.rest().len();
        &&& self.positions.wf()
        &&& self.positions.dims() == dims
        &&& pixels.len() == dims.0 as int * dims.1 as int
        &&& forall|k: int| 0 <= k < pixels.len() ==> (#[trigger] pixels[k]).len() == 4
        &&& self.triple.wf()
        &&& t <= 3
        &&& t <= 3 * p
        &&& self.triple.rest() == image_bits(pixels).subrange(3 * p - t, 3 * p)
    }

    closed spec fn rest(&self) -> Seq<bool> {
        image_bits(image_pixels(*self.buf)).skip(3 * self.positions.index() - self.triple.rest().len())
    }

    fn next(&mut self) -> (r: Option<bool>) {
        let ghost pixels = image_pixels(*self.buf);
        let ghost all = image_bits(pixels);
        proof {
            self.positions.lemma_index_bound();
        }
        match self.triple.next() {
            Some(b) => {
                assert(self.rest() =~= old(self).rest().drop_first());
                assert(self.triple.rest() =~= all.subrange(
                    3 * self.positions.index() - self.triple.rest().len(),
                    3 * self.positions.index(),
                ));
                Some(b)
            },
            None => {
                let ghost p = self.positions.index();
                let ghost w = self.positions.dims().0;
                let ghost h = self.positions.dims().1;
                let ghost before = self.positions.rest();
                match self.positions.next() {
                    Some(pos) => {
                        proof {
                            assert(before[0] == scan_order(w, h)[p]);
                            lemma_scan_order_coverage(w, h);
                            assert(scan_order(w, h)[p] == pos);
                        }
                        let pixel = get_pixel(self.buf, pos.0, pos.1);
                        assert(pixel@ == pixels[p]);
                        let lsbs = [has(pixel[0], 0), has(pixel[1], 0), has(pixel[2], 0)];
                        self.triple = TripleIterator::new(lsbs);
                        assert(lsbs@ =~= all.subrange(3 * p, 3 * p + 3)) by {
                            assert((3 * p) / 3 == p && (3 * p) % 3 == 0);
                            assert((3 * p + 1) / 3 == p && (3 * p + 1) % 3 == 1);
                            assert((3 * p + 2) / 3 == p && (3 * p + 2) % 3 == 2);
                        }
                        let r = self.triple.next();
                        assert(self.triple.rest() =~= all.subrange(3 * (p + 1) - 2, 3 * (p + 1)));
                        assert(self.rest() =~= old(self).rest().drop_first());
                        r
                    },
                    None => {
                        proof {
                            self.positions.lemma_index_bound();
                        }
                        None
                    },
                }
            },
        }
    }
}

/// Reads the message hidden in `buf`: the bytes before the first zero byte of
/// the image's bit stream (or every whole byte, if no zero byte comes),
/// decoded as UTF-8. Fails exactly when those bytes are not valid UTF-8.
pub fn read_message(buf: &PixelBuffer) -> (r: Result<String, std::string::FromUtf8Error>)
    ensures
        r is Ok <==> valid_utf8(hidden_bytes(image_pixels(*buf))),
        r matches Ok(s) ==> s@ == decode_utf8(hidden_bytes(image_pixels(*buf))),
{
    let bits = ImageBits::new(buf);
    let mut decoder = MessageDecoder::new(bits);
    let ghost all = pack(image_bits(image_pixels(*buf)));
    let mut vec: Vec<u8> = Vec::new();
    let mut done = false;
    while !done
        invariant
            decoder.wf(),
            !done ==> before_zero(all) == vec@ + before_zero(decoder.pending()),
            done ==> before_zero(all) == vec@,
        decreases
            if done {
                0
            } else {
                decoder.pending().len() + 1
            },
    {
        let ghost pending = decoder.pending();
        let ghost prefix = vec@;
        match decoder.next() {
            Some(v) => {
                if v == 0 {
                    assert(before_zero(pending) == Seq::<u8>::empty());
                    assert(prefix + Seq::<u8>::empty() =~= prefix);
                    done = true;
                } else {
                    vec.push(v);
                    assert(before_zero(pending) == seq![v] + before_zero(pending.drop_first()));
                    assert(vec@ + before_zero(decoder.pending()) =~= prefix + (seq![v] + before_zero(
                        decoder.pending(),
                    )));
                }
            },
            None => {
                assert(prefix + Seq::<u8>::empty() =~= prefix);
                done = true;
            },
        }
    }
    assert(vec@ =~= before_zero(all));
    String::from_utf8(vec)
}

/// Bit `i` of `bits`, or `false` past its end.
pub open spec fn slot_bit(bits: Seq<bool>, i: int) -> bool {
    if 0 <= i < bits.len() {
        bits[i]
    } else {
        false
    }
}

/// Pixel `p` after the writer visits it: the least-significant bits of its
/// first three channels replaced by bits `3p`, `3p + 1`, `3p + 2` of the
/// stream (0 past its end), everything else kept.
pub open spec fn embed_pixel(px: Seq<u8>, p: int, bits: Seq<bool>) -> Seq<u8> {
    seq![
        with_lsb(px[0], slot_bit(bits, 3 * p)),
        with_lsb(px[1], slot_bit(bits, 3 * p + 1)),
        with_lsb(px[2], slot_bit(bits, 3 * p + 2)),
        px[3],
    ]
}

/// The pixels after writing `bits`: the writer visits pixel `p` exactly when
/// the stream has not run out before it (`3p <= bits.len()`); the others are
/// left as they were.
pub open spec fn embed(pixels: Seq<Seq<u8>>, bits: Seq<bool>) -> Seq<Seq<u8>> {
    Seq::new(
        pixels.len(),
        |p: int|
            if 3 * p <= bits.len() {
                embed_pixel(pixels[p], p, bits)
            } else {
                pixels[p]
            },
    )
}

/// The pixels once the writer has visited the first `n` of them.
spec fn embed_upto(pixels: Seq<Seq<u8>>, bits: Seq<bool>, n: int) -> Seq<Seq<u8>> {
    Seq::new(
        pixels.len(),
        |p: int|
            if p < n && 3 * p <= bits.len() {
                embed_pixel(pixels[p], p, bits)
            } else {
                pixels[p]
            },
    )
}

/// The bit stream written for a message: its UTF-8 bytes and a closing zero
/// byte, expanded most-significant bit first.
pub open spec fn message_bits(msg: Seq<char>) -> Seq<bool> {
    expand(encode_utf8(msg).push(0))
}

/// Pulls the next bit for a channel: `(bit, ran_out)`, where a stream that has
/// run out gives 0.
fn next_slot(coder: &mut MessageCoder, Ghost(bits): Ghost<Seq<bool>>, Ghost(i): Ghost<int>) -> (r: (
    bool,
    bool,
))
    requires
        old(coder).wf(),
        0 <= i <= bits.len(),
        old(coder).rest() == bits.skip(i),
    ensures
        final(coder).wf(),
        r.0 == slot_bit(bits, i),
        r.1 == (i >= bits.len()),
        i < bits.len() ==> final(coder).rest() == bits.skip(i + 1),
        i >= bits.len() ==> final(coder).rest() == bits.skip(i),
{
    match coder.next() {
        Some(v) => {
            assert(bits.skip(i).drop_first() =~= bits.skip(i + 1));
            (v, false)
        },
        None => (false, true),
    }
}

/// Writes `msg` into `buf`: the message's UTF-8 bytes and a closing zero byte,
/// bit by bit, into the least-significant bits of the first three channels of
/// the pixels in scan order. The pixel where the bits run out is still
/// finished, its remaining channels' low bits set to 0, and no pixel after it
/// is touched. A message longer than the image holds is cut off silently.
pub fn write_message(buf: &mut PixelBuffer, msg: String)
    ensures
        image_dims(*final(buf)) == image_dims(*old(buf)),
        image_pixels(*final(buf)) == embed(image_pixels(*old(buf)), message_bits(msg@)),
{
    let dims = dimensions(buf);
    let w = dims.0;
    let h = dims.1;
    let ghost start = image_pixels(*buf);
    let mut pixel_iter = PixelPositionIterator::new(dims);
    let mut vec = vstd::slice::slice_to_vec(msg.as_str().as_bytes());
    vec.push(0);
    let ghost bits = expand(vec@);
    proof {
        crate::stream::lemma_expand_index(vec@);
        lemma_scan_order_coverage(w, h);
        assert(embed_upto(start, bits, 0) =~= start);
    }
    let mut bit_iter = MessageCoder::new(vec);
    loop
        invariant
            pixel_iter.wf(),
            pixel_iter.dims() == dims,
            w == dims.0,
            h == dims.1,
            image_dims(*buf) == dims,
            dims == image_dims(*old(buf)),
            start == image_pixels(*old(buf)),
            bits == message_bits(msg@),
            start.len() == w as int * h as int,
            forall|k: int| 0 <= k < start.len() ==> (#[trigger] start[k]).len() == 4,
            3 * pixel_iter.index() <= bits.len(),
            bit_iter.wf(),
            bit_iter.rest() == bits.skip(3 * pixel_iter.index()),
            image_pixels(*buf) == embed_upto(start, bits, pixel_iter.index()),
            forall|k: int|
                0 <= k < scan_order(w, h).len() ==> {
                    let c = #[trigger] scan_order(w, h)[k];
                    &&& c.0 < w
                    &&& c.1 < h
                    &&& c.1 as int * w as int + c.0 as int == k
                },
        decreases w as int * h as int - pixel_iter.index(),
    {
        proof {
            pixel_iter.lemma_index_bound();
        }
        let ghost p = pixel_iter.index();
        let ghost before = pixel_iter.rest();
        let next = pixel_iter.next();
        match next {
            Some(pos) => {
                let x = pos.0;
                let y = pos.1;
                assert(before[0] == scan_order(w, h)[p]);
                let mut pixel = get_pixel(buf, x, y);
                assert(pixel@ == start[p]);
                let (b0, out0) = next_slot(&mut bit_iter, Ghost(bits), Ghost(3 * p));
                let (b1, out1) = next_slot(
                    &mut bit_iter,
                    Ghost(bits),
                    Ghost(if out0 { 3 * p } else { 3 * p + 1 }),
                );
                let (b2, out2) = next_slot(
                    &mut bit_iter,
                    Ghost(bits),
                    Ghost(if out0 { 3 * p } else if out1 { 3 * p + 1 } else { 3 * p + 2 }),
                );
                let need_return = out0 || out1 || out2;
                pixel[0] = setbit(pixel[0], 0, b0);
                pixel[1] = setbit(pixel[1], 0, b1);
                pixel[2] = setbit(pixel[2], 0, b2);
                assert(pixel@ =~= embed_pixel(start[p], p, bits));
                put_pixel(buf, x, y, pixel);
                proof {
                    pixel_iter.lemma_index_bound();
                }
                if need_return {
                    assert(image_pixels(*buf) =~= embed(start, bits));
                    return ;
                }
                assert(image_pixels(*buf) =~= embed_upto(start, bits, p + 1));
            },
            None => {
                assert(image_pixels(*buf) =~= embed(start, bits));
                return ;
            },
        }
    }
}

/// Setting the low bit of a value to `b` makes its low bit read `b`.
proof fn lemma_with_lsb_bit(v: u8, b: bool)
    ensures
        bit_of(with_lsb(v, b), 0) == b,
{
    assert(((v | 1u8) >> 0u8) & 1u8 == 1u8) by (bit_vector);
    assert(!(((v & 254u8) >> 0u8) & 1u8 == 1u8)) by (bit_vector);
}

/// The bytes before the first zero of `e`, a zero and anything after are
/// the bytes before the first zero of `e`.
proof fn lemma_before_zero_prefix(e: Seq<u8>, rest: Seq<u8>)
    ensures
        before_zero(e + seq![0u8] + rest) == before_zero(e),
    decreases e.len(),
{
    let s = e + seq![0u8] + rest;
    if e.len() == 0 {
        assert(s[0] == 0);
    } else {
        assert(s.drop_first() =~= e.drop_first() + seq![0u8] + rest);
        lemma_before_zero_prefix(e.drop_first(), rest);
    }
}

/// Every image bit that the stream reaches is the stream's bit.
proof fn lemma_embed_bit(pixels: Seq<Seq<u8>>, bits: Seq<bool>, i: int)
    requires
        forall|k: int| 0 <= k < pixels.len() ==> (#[trigger] pixels[k]).len() == 4,
        0 <= i < bits.len(),
        i < 3 * pixels.len(),
    ensures
        image_bits(embed(pixels, bits))[i] == bits[i],
{
    let p = i / 3;
    let c = i % 3;
    assert(3 * p + c == i);
    let px = pixels[p];
    lemma_with_lsb_bit(px[c], slot_bit(bits, i));
    if c == 0 {
        assert(embed(pixels, bits)[p][0] == with_lsb(px[0], slot_bit(bits, i)));
    } else if c == 1 {
        assert(embed(pixels, bits)[p][1] == with_lsb(px[1], slot_bit(bits, i)));
    } else {
        assert(embed(pixels, bits)[p][2] == with_lsb(px[2], slot_bit(bits, i)));
    }
}

/// The image bits after writing a stream start with that stream, as long as
/// the image has room for all of it.
proof fn lemma_embed_bits(pixels: Seq<Seq<u8>>, bits: Seq<bool>)
    requires
        forall|k: int| 0 <= k < pixels.len() ==> (#[trigger] pixels[k]).len() == 4,
        bits.len() <= 3 * pixels.len(),
    ensures
        image_bits(embed(pixels, bits)).subrange(0, bits.len() as int) == bits,
{
    let ib = image_bits(embed(pixels, bits));
    assert forall|i: int| 0 <= i < bits.len() implies #[trigger] ib[i] == bits[i] by {
        lemma_embed_bit(pixels, bits, i);
    }
    assert(ib.subrange(0, bits.len() as int) =~= bits);
}

/// Writing a stream longer than the image holds (three bits per pixel) visits
/// every pixel and leaves in the image exactly the stream's first
/// `3 * pixels` bits; the rest is dropped without error.
pub proof fn lemma_truncated_write(pixels: Seq<Seq<u8>>, bits: Seq<bool>)
    requires
        forall|k: int| 0 <= k < pixels.len() ==> (#[trigger] pixels[k]).len() == 4,
        3 * pixels.len() <= bits.len(),
    ensures
        embed(pixels, bits).len() == pixels.len(),
        image_bits(embed(pixels, bits)) == bits.subrange(0, 3 * pixels.len() as int),
{
    let ib = image_bits(embed(pixels, bits));
    assert forall|i: int| 0 <= i < 3 * pixels.len() implies #[trigger] ib[i] == bits[i] by {
        lemma_embed_bit(pixels, bits, i);
    }
    assert(ib =~= bits.subrange(0, 3 * pixels.len() as int));
}

/// Reading an image back after writing a message into it gives the message's
/// bytes up to its first zero byte (all of them when it has none), provided
/// the image has room for the message and its closing zero byte
/// (`8 * (bytes + 1) <= 3 * pixels`).
pub proof fn lemma_write_then_read(pixels: Seq<Seq<u8>>, msg: Seq<char>)
    requires
        forall|k: int| 0 <= k < pixels.len() ==> (#[trigger] pixels[k]).len() == 4,
        8 * (encode_utf8(msg).len() + 1) <= 3 * pixels.len(),
    ensures
        hidden_bytes(embed(pixels, message_bits(msg))) == before_zero(encode_utf8(msg)),
{
    let e = encode_utf8(msg);
    let b = e.push(0);
    let bits = expand(b);
    crate::stream::lemma_expand_index(b);
    crate::stream::lemma_pack_expand(b);
    lemma_embed_bits(pixels, bits);
    let ib = image_bits(embed(pixels, bits));
    let packed = pack(ib);
    assert forall|k: int| 0 <= k < b.len() implies #[trigger] packed[k] == b[k] by {
        assert(ib.subrange(8 * k, 8 * k + 8) =~= bits.subrange(8 * k, 8 * k + 8)) by {
            assert forall|j: int| 0 <= j < 8 implies ib.subrange(8 * k, 8 * k + 8)[j] == #[trigger] bits.subrange(
                8 * k,
                8 * k + 8,
            )[j] by {
                assert(ib.subrange(0, bits.len() as int)[8 * k + j] == bits[8 * k + j]);
            }
        }
        assert(pack(bits)[k] == b[k]);
    }
    assert(packed =~= e + seq![0u8] + packed.skip(b.len() as int));
    lemma_before_zero_prefix(e, packed.skip(b.len() as int));
}

/// Writing a text whose UTF-8 bytes hold no zero byte into an image with room
/// for it, then reading the image back, gives the same text.
pub proof fn lemma_round_trip(pixels: Seq<Seq<u8>>, msg: Seq<char>)
    requires
        forall|k: int| 0 <= k < pixels.len() ==> (#[trigger] pixels[k]).len() == 4,
        8 * (encode_utf8(msg).len() + 1) <= 3 * pixels.len(),
        !encode_utf8(msg).contains(0u8),
    ensures
        valid_utf8(hidden_bytes(embed(pixels, message_bits(msg)))),
        decode_utf8(hidden_bytes(embed(pixels, message_bits(msg)))) == msg,
{
    lemma_write_then_read(pixels, msg);
    lemma_before_zero_plain(encode_utf8(msg));
    vstd::utf8::encode_utf8_valid_utf8(msg);
    vstd::utf8::encode_utf8_decode_utf8(msg);
}

/// A sequence with no zero byte is all before its first zero.
proof fn lemma_before_zero_plain(s: Seq<u8>)
    requires
        !s.contains(0u8),
    ensures
        before_zero(s) == s,
    decreases s.len(),
{
    if s.len() > 0 {
        assert(s[0] != 0);
        assert(!s.drop_first().contains(0u8)) by {
            if s.drop_first().contains(0u8) {
                let j = choose|j: int| 0 <= j < s.drop_first().len() && s.drop_first()[j] == 0u8;
                assert(s[j + 1] == 0u8);
            }
        }
        lemma_before_zero_plain(s.drop_first());
        assert(s =~= seq![s[0]] + s.drop_first());
    }
}

} // verus!
