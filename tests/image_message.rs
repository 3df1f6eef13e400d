use image::{Rgba, RgbaImage};
use stgr::{read_message, write_message, PixelBuffer};

fn filled(w: u32, h: u32, px: [u8; 4]) -> PixelBuffer {
    PixelBuffer { image: RgbaImage::from_pixel(w, h, Rgba(px)) }
}

fn lsbs(buf: &PixelBuffer) -> Vec<u8> {
    let mut out = Vec::new();
    for y in 0..buf.image.height() {
        for x in 0..buf.image.width() {
            let p = buf.image.get_pixel(x, y).0;
            out.push(p[0] & 1);
            out.push(p[1] & 1);
            out.push(p[2] & 1);
        }
    }
    out
}

fn bits_of(bytes: &[u8]) -> Vec<u8> {
    let mut out = Vec::new();
    for b in bytes {
        for i in (0..8).rev() {
            out.push((b >> i) & 1);
        }
    }
    out
}

#[test]
fn write_then_read_hi() {
    let mut buf = filled(4, 3, [10, 20, 30, 255]);
    write_message(&mut buf, String::from("Hi!"));
    let expected = bits_of(&[72, 105, 33, 0]);
    assert_eq!(&lsbs(&buf)[..32], &expected[..]);
    assert_eq!(read_message(&buf).unwrap(), "Hi!");
}

#[test]
fn write_then_read_exact_capacity() {
    // "Hi!" and the zero byte need 32 bits; 11 pixels hold 33
    let mut buf = filled(11, 1, [0, 0, 0, 0]);
    write_message(&mut buf, String::from("Hi!"));
    assert_eq!(read_message(&buf).unwrap(), "Hi!");
}

#[test]
fn write_then_read_multibyte_text() {
    let mut buf = filled(10, 10, [200, 201, 202, 203]);
    write_message(&mut buf, String::from("héllo ✓"));
    assert_eq!(read_message(&buf).unwrap(), "héllo ✓");
}

#[test]
fn write_keeps_high_bits_and_alpha() {
    let mut buf = filled(5, 5, [0b1010_1011, 0b0101_0100, 0xFF, 77]);
    write_message(&mut buf, String::from("Z"));
    for y in 0..5 {
        for x in 0..5 {
            let p = buf.image.get_pixel(x, y).0;
            assert_eq!(p[0] >> 1, 0b1010_1011 >> 1);
            assert_eq!(p[1] >> 1, 0b0101_0100 >> 1);
            assert_eq!(p[2] >> 1, 0xFF >> 1);
            assert_eq!(p[3], 77);
        }
    }
}

#[test]
fn write_forces_unused_channels_of_last_pixel_to_zero() {
    // the empty message is one zero byte: 8 bits; pixels 0 and 1 carry 6 of
    // them, pixel 2 carries 2 and has its third low bit forced to 0, pixel 3
    // is not touched
    let mut buf = filled(4, 1, [1, 1, 1, 9]);
    write_message(&mut buf, String::new());
    assert_eq!(buf.image.get_pixel(0, 0).0, [0, 0, 0, 9]);
    assert_eq!(buf.image.get_pixel(1, 0).0, [0, 0, 0, 9]);
    assert_eq!(buf.image.get_pixel(2, 0).0, [0, 0, 0, 9]);
    assert_eq!(buf.image.get_pixel(3, 0).0, [1, 1, 1, 9]);
    assert_eq!(read_message(&buf).unwrap(), "");
}

#[test]
fn write_stops_after_pixel_where_bits_end() {
    // "A" and the zero byte are 16 bits: pixel 5 carries bit 15 and has its
    // other two low bits forced to 0; pixels 6 and 7 are not touched
    let mut buf = filled(8, 1, [1, 1, 1, 0]);
    write_message(&mut buf, String::from("A"));
    let expected = bits_of(&[65, 0]);
    let got = lsbs(&buf);
    assert_eq!(&got[..16], &expected[..]);
    assert_eq!(&got[16..18], &[0, 0]);
    assert_eq!(&got[18..], &[1, 1, 1, 1, 1, 1]);
}

#[test]
fn write_bits_ending_on_pixel_boundary_zero_next_pixel() {
    // "AB" and the zero byte are 24 bits, filling pixels 0 to 7 exactly; the
    // writer still visits pixel 8 and forces its three low bits to 0
    let mut buf = filled(10, 1, [1, 1, 1, 0]);
    write_message(&mut buf, String::from("AB"));
    let expected = bits_of(&[65, 66, 0]);
    let got = lsbs(&buf);
    assert_eq!(&got[..24], &expected[..]);
    assert_eq!(&got[24..27], &[0, 0, 0]);
    assert_eq!(&got[27..], &[1, 1, 1]);
}

#[test]
fn truncated_write_fills_capacity_only() {
    // ten bytes into a 2x2 image: 12 bits of room
    let mut buf = filled(2, 2, [0, 0, 0, 5]);
    let msg = String::from("ABCDEFGHIJ");
    write_message(&mut buf, msg.clone());
    let mut bytes = msg.into_bytes();
    bytes.push(0);
    let expected = bits_of(&bytes);
    assert_eq!(lsbs(&buf), expected[..12].to_vec());
    for y in 0..2 {
        for x in 0..2 {
            assert_eq!(buf.image.get_pixel(x, y).0[3], 5);
        }
    }
    // 12 bits make one byte, 'A' (65), and no zero byte follows
    assert_eq!(read_message(&buf).unwrap(), "A");
}

#[test]
fn embedded_zero_byte_cuts_message() {
    let mut buf = filled(6, 6, [3, 3, 3, 3]);
    write_message(&mut buf, String::from("A\u{0}B"));
    let expected = bits_of(&[65, 0, 66, 0]);
    assert_eq!(&lsbs(&buf)[..32], &expected[..]);
    assert_eq!(read_message(&buf).unwrap(), "A");
}

fn with_lsbs(w: u32, h: u32, bits: &[u8]) -> PixelBuffer {
    let mut buf = filled(w, h, [0, 0, 0, 255]);
    let mut k = 0;
    for y in 0..h {
        for x in 0..w {
            let mut p = buf.image.get_pixel(x, y).0;
            for c in 0..3 {
                if k < bits.len() {
                    p[c] = (p[c] & 0xFE) | bits[k];
                    k += 1;
                }
            }
            buf.image.put_pixel(x, y, Rgba(p));
        }
    }
    buf
}

#[test]
fn read_non_text_is_an_error() {
    let buf = with_lsbs(6, 1, &bits_of(&[0xFF, 0x00]));
    assert!(read_message(&buf).is_err());
    let buf = with_lsbs(6, 1, &bits_of(&[0xC3, 0x00]));
    assert!(read_message(&buf).is_err());
}

#[test]
fn read_without_sentinel_takes_whole_bytes() {
    // 4 pixels hold 12 bits: one whole byte 'a' and 4 bits dropped
    let buf = with_lsbs(4, 1, &[0, 1, 1, 0, 0, 0, 0, 1, 1, 1, 1, 1]);
    assert_eq!(read_message(&buf).unwrap(), "a");
}

#[test]
fn degenerate_images() {
    let mut buf = filled(0, 0, [0, 0, 0, 0]);
    write_message(&mut buf, String::from("x"));
    assert_eq!(read_message(&buf).unwrap(), "");
    let mut buf = filled(0, 3, [0, 0, 0, 0]);
    write_message(&mut buf, String::from("x"));
    assert_eq!(read_message(&buf).unwrap(), "");
    let buf = filled(3, 0, [0, 0, 0, 0]);
    assert_eq!(read_message(&buf).unwrap(), "");
}

#[test]
fn read_all_zero_image_is_empty() {
    let buf = filled(3, 3, [0, 0, 0, 0]);
    assert_eq!(read_message(&buf).unwrap(), "");
}
