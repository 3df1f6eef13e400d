use stgr::bits::{bit_to_num, has, setbit};
use stgr::scan::{PixelPositionIterator, TripleIterator};
use stgr::{BitSeq, BitSource, MessageCoder, MessageDecoder};

fn expand_all(bytes: Vec<u8>) -> Vec<u8> {
    let mut coder = MessageCoder::new(bytes);
    let mut out = Vec::new();
    while let Some(a) = coder.next() {
        out.push(if a { 1 } else { 0 });
    }
    out
}

fn pack_all(bits: Vec<bool>) -> Vec<u8> {
    let mut decoder = MessageDecoder::new(BitSeq::new(bits));
    let mut out = Vec::new();
    while let Some(b) = decoder.next() {
        out.push(b);
    }
    out
}

#[test]
fn num_to_message() {
    let input = vec![72, 105, 33, 0];
    assert_eq!(
        expand_all(input),
        vec!(
            0, 1, 0, 0, 1, 0, 0, 0,
            0, 1, 1, 0, 1, 0, 0, 1,
            0, 0, 1, 0, 0, 0, 0, 1,
            0, 0, 0, 0, 0, 0, 0, 0,
        )
    );
}

#[test]
fn message_to_num() {
    let input = [
        0, 1, 0, 0, 1, 0, 0, 0,
        0, 1, 1, 0, 1, 0, 0, 1,
        0, 0, 1, 0, 0, 0, 0, 1,
        0, 0, 0, 0, 0, 0, 0, 0,
    ];
    let bits: Vec<bool> = input.iter().map(|a| *a == 1).collect();
    assert_eq!(pack_all(bits), vec!(72, 105, 33, 0));
}

#[test]
fn expander_packer_round_trip() {
    let cases: Vec<Vec<u8>> = vec![vec![0], vec![255], vec![1, 2, 3, 128, 254], (0..=255).collect()];
    for bytes in cases {
        let mut decoder = MessageDecoder::new(MessageCoder::new(bytes.clone()));
        let mut out = Vec::new();
        while let Some(b) = decoder.next() {
            out.push(b);
        }
        assert_eq!(out, bytes);
    }
}

#[test]
fn expander_empty_source() {
    let mut coder = MessageCoder::new(Vec::new());
    assert_eq!(coder.next(), None);
    assert_eq!(coder.next(), None);
}

#[test]
fn expander_stops_after_last_bit() {
    let mut coder = MessageCoder::new(vec![0x80]);
    assert_eq!(coder.next(), Some(true));
    for _ in 0..7 {
        assert_eq!(coder.next(), Some(false));
    }
    assert_eq!(coder.next(), None);
    assert_eq!(coder.next(), None);
}

#[test]
fn packer_drops_partial_byte() {
    // 11 bits: one whole byte, three bits dropped
    let bits = vec![true, false, false, false, false, false, false, true, true, true, true];
    assert_eq!(pack_all(bits), vec![129]);
    // 7 bits: no byte at all
    assert_eq!(pack_all(vec![true; 7]), Vec::<u8>::new());
    // 16 + 5 bits: two bytes
    let mut bits = vec![false; 8];
    bits.extend(vec![true; 8]);
    bits.extend(vec![true; 5]);
    assert_eq!(pack_all(bits), vec![0, 255]);
    assert_eq!(pack_all(Vec::new()), Vec::<u8>::new());
}

#[test]
fn packer_value_formula() {
    // value = value * 2 + bit over 0,0,0,0,0,1,0,1
    let bits = vec![false, false, false, false, false, true, false, true];
    assert_eq!(pack_all(bits), vec![5]);
}

fn scan(w: u32, h: u32) -> Vec<(u32, u32)> {
    let mut it = PixelPositionIterator::new((w, h));
    let mut out = Vec::new();
    while let Some(c) = it.next() {
        out.push(c);
    }
    out
}

#[test]
fn scan_order_row_major() {
    assert_eq!(scan(3, 2), vec![(0, 0), (1, 0), (2, 0), (0, 1), (1, 1), (2, 1)]);
    assert_eq!(scan(1, 3), vec![(0, 0), (0, 1), (0, 2)]);
    assert_eq!(scan(2, 1), vec![(0, 0), (1, 0)]);
}

#[test]
fn scan_order_covers_grid_once() {
    let (w, h) = (7u32, 5u32);
    let coords = scan(w, h);
    assert_eq!(coords.len(), (w * h) as usize);
    for (k, c) in coords.iter().enumerate() {
        assert!(c.0 < w && c.1 < h);
        assert_eq!((c.1 * w + c.0) as usize, k);
    }
    for pair in coords.windows(2) {
        assert!((pair[0].1, pair[0].0) < (pair[1].1, pair[1].0));
    }
}

#[test]
fn scan_order_degenerate() {
    assert_eq!(scan(0, 0), Vec::new());
    assert_eq!(scan(0, 4), Vec::new());
    assert_eq!(scan(4, 0), Vec::new());
}

#[test]
fn scan_order_stays_exhausted() {
    let mut it = PixelPositionIterator::new((1, 1));
    assert_eq!(it.next(), Some((0, 0)));
    assert_eq!(it.next(), None);
    assert_eq!(it.next(), None);
}

#[test]
fn triple_in_order() {
    let mut t = TripleIterator::new([7u8, 8, 9]);
    assert_eq!(t.next(), Some(7));
    assert_eq!(t.next(), Some(8));
    assert_eq!(t.next(), Some(9));
    assert_eq!(t.next(), None);
}

#[test]
fn bit_helpers() {
    assert!(has(0b1000_0000, 7));
    assert!(!has(0b1000_0000, 6));
    assert!(has(1, 0));
    assert_eq!(bit_to_num(true), 1);
    assert_eq!(bit_to_num(false), 0);
    assert_eq!(setbit(0b1010_1010, 0, true), 0b1010_1011);
    assert_eq!(setbit(0b1010_1011, 0, false), 0b1010_1010);
    assert_eq!(setbit(0b1010_1010, 0, false), 0b1010_1010);
    assert_eq!(setbit(0, 7, true), 128);
    assert_eq!(setbit(255, 3, false), 0b1111_0111);
}
