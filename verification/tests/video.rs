use glitchwing::video::{
    decode_into, rgba_row, scale_video, show_rgb, VIDEO_BYTES, VIDEO_H, VIDEO_W,
};

/// Bits of entropy-coded data, most significant first, with stuffed zero bytes.
struct Bits {
    out: Vec<u8>,
    acc: u32,
    n: u32,
}

impl Bits {
    fn put(&mut self, value: u32, len: u32) {
        for i in (0..len).rev() {
            self.acc = self.acc << 1 | (value >> i & 1);
            self.n += 1;
            if self.n == 8 {
                self.out.push(self.acc as u8);
                if self.acc as u8 == 0xFF {
                    self.out.push(0);
                }
                self.acc = 0;
                self.n = 0;
            }
        }
    }
}

fn segment(out: &mut Vec<u8>, marker: u8, body: &[u8]) {
    out.extend_from_slice(&[0xFF, marker]);
    out.extend_from_slice(&((body.len() as u16 + 2).to_be_bytes()));
    out.extend_from_slice(body);
}

/// A baseline JPEG of one color: three components, no subsampling, DC values only.
fn flat_jpeg(w: u16, h: u16, y: i32, cb: i32, cr: i32) -> Vec<u8> {
    let mut out = vec![0xFF, 0xD8];
    let mut dqt = vec![0];
    dqt.extend_from_slice(&[1; 64]);
    segment(&mut out, 0xDB, &dqt);
    let mut sof = vec![8];
    sof.extend_from_slice(&h.to_be_bytes());
    sof.extend_from_slice(&w.to_be_bytes());
    sof.extend_from_slice(&[3, 1, 0x11, 0, 2, 0x11, 0, 3, 0x11, 0]);
    segment(&mut out, 0xC0, &sof);
    // DC: category 0 is `0`, 9 is `10`, 10 is `110`; AC: end of block is `0`
    let mut dc = vec![0x00, 1, 1, 1];
    dc.extend_from_slice(&[0; 13]);
    dc.extend_from_slice(&[0, 9, 10]);
    segment(&mut out, 0xC4, &dc);
    let mut ac = vec![0x10, 1];
    ac.extend_from_slice(&[0; 15]);
    ac.push(0);
    segment(&mut out, 0xC4, &ac);
    segment(&mut out, 0xDA, &[3, 1, 0, 2, 0, 3, 0, 0, 63, 0]);

    let mut bits = Bits { out: Vec::new(), acc: 0, n: 0 };
    let blocks = (w as u32).div_ceil(8) * (h as u32).div_ceil(8);
    for block in 0..blocks {
        for level in [y, cb, cr] {
            if block == 0 {
                let v = 8 * (level - 128);
                let size = 32 - v.unsigned_abs().leading_zeros();
                match size {
                    9 => bits.put(0b10, 2),
                    10 => bits.put(0b110, 3),
                    _ => panic!("no code for that level"),
                }
                bits.put(if v < 0 { v + (1 << size) - 1 } else { v } as u32, size);
            } else {
                bits.put(0, 1);
            }
            bits.put(0, 1);
        }
    }
    bits.put(0x7F, 7);
    out.extend_from_slice(&bits.out);
    out.extend_from_slice(&[0xFF, 0xD9]);
    out
}

#[test]
fn jpeg_frames_are_decoded() {
    let red = flat_jpeg(240, 320, 76, 85, 255);
    let mut vid = vec![0u32; VIDEO_W * VIDEO_H];
    assert!(decode_into(&red, &mut vid));
    assert!(vid.iter().all(|p| *p == vid[0]));
    let (r, g, b) = (vid[0] >> 16, vid[0] >> 8 & 0xFF, vid[0] & 0xFF);
    assert!(r > 248 && g < 8 && b < 8, "{r} {g} {b}");
}

#[test]
fn small_pictures_and_garbage_leave_the_video_alone() {
    let mut vid = vec![7u32; VIDEO_W * VIDEO_H];
    assert!(!decode_into(&flat_jpeg(120, 160, 76, 85, 255), &mut vid));
    assert!(!decode_into(&[], &mut vid));
    assert!(!decode_into(&[0xFF, 0xD8, 0xFF, 0xD9], &mut vid));
    assert!(!decode_into(b"not a jpeg", &mut vid));
    assert!(vid.iter().all(|p| *p == 7));
}

#[test]
fn rgb_bytes_become_pixels() {
    let bytes: Vec<u8> = (0..VIDEO_BYTES).map(|i| (i % 251) as u8).collect();
    let mut vid = vec![0u32; VIDEO_W * VIDEO_H + 1];
    vid[VIDEO_W * VIDEO_H] = 99;
    assert!(show_rgb(&bytes, &mut vid));
    assert_eq!(vid[0], 0x0000_0102);
    assert_eq!(vid[1], 0x0003_0405);
    assert_eq!(vid[VIDEO_W * VIDEO_H], 99, "past the bytes");
    assert!(!show_rgb(&bytes[..VIDEO_BYTES - 1], &mut vid));
    assert_eq!(vid[0], 0x0000_0102);
    let mut small = vec![0u32; 2];
    assert!(show_rgb(&bytes, &mut small));
    assert_eq!(small, [0x0000_0102, 0x0003_0405]);
}

fn test_card() -> Vec<u32> {
    (0..VIDEO_W * VIDEO_H).map(|i| i as u32).collect()
}

#[test]
fn unscaled_video_is_copied_to_the_center() {
    let vid = test_card();
    let (w, h) = (250, 331);
    let mut fb = vec![u32::MAX; w * h];
    scale_video(&mut fb, w, h, &vid, VIDEO_W, VIDEO_H);
    for y in 0..h {
        for x in 0..w {
            let want = if (5..245).contains(&x) && (5..325).contains(&y) {
                vid[(y - 5) * VIDEO_W + x - 5]
            } else {
                u32::MAX
            };
            assert_eq!(fb[y * w + x], want);
        }
    }
}

#[test]
fn doubled_video_repeats_every_pixel() {
    let vid = test_card();
    let (w, h) = (480, 640);
    let mut fb = vec![0; w * h];
    scale_video(&mut fb, w, h, &vid, w, h);
    for (x, y) in [(0, 0), (1, 1), (2, 0), (0, 2), (479, 639), (100, 301)] {
        assert_eq!(fb[y * w + x], vid[(y / 2) * VIDEO_W + x / 2]);
    }
}

#[test]
fn empty_video_draws_nothing() {
    let mut fb = vec![5; 100];
    scale_video(&mut fb, 10, 10, &test_card(), 0, 3);
    scale_video(&mut fb, 10, 10, &test_card(), 3, 0);
    assert_eq!(fb, vec![5; 100]);
}

#[test]
fn rows_become_rgba_bytes() {
    let fb = [0, 0, 0x0012_3456, 0x00AB_CDEF, 7];
    assert_eq!(rgba_row(&fb, 2, 1, 2), [0x12, 0x34, 0x56, 0xFF, 0xAB, 0xCD, 0xEF, 0xFF]);
    assert_eq!(rgba_row(&fb, 2, 1, 1), [0x12, 0x34, 0x56, 0xFF]);
    assert!(rgba_row(&fb, 2, 2, 0).is_empty());
}
