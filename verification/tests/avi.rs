use glitchwing::avi::AviWriter;
use std::io::{Cursor, Seek, SeekFrom, Write};

fn le_u32(b: &[u8], pos: usize) -> u32 {
    u32::from_le_bytes([b[pos], b[pos + 1], b[pos + 2], b[pos + 3]])
}

fn find(haystack: &[u8], needle: &[u8]) -> Option<usize> {
    haystack.windows(needle.len()).position(|w| w == needle)
}

/// A muxer and the sink that its bytes go to.
struct Recorder<'a> {
    out: &'a mut Cursor<Vec<u8>>,
    avi: AviWriter,
}

impl<'a> Recorder<'a> {
    fn new(out: &'a mut Cursor<Vec<u8>>, width: u32, height: u32, fps: u32) -> Recorder<'a> {
        let start = out.stream_position().unwrap();
        let (avi, header) = AviWriter::new(start, width, height, fps);
        out.write_all(&header).unwrap();
        Recorder { out, avi }
    }

    fn write_frame(&mut self, jpeg: &[u8]) {
        let at = self.out.stream_position().unwrap();
        assert!(self.avi.accepts(jpeg.len(), at));
        let bytes = self.avi.write_frame(jpeg);
        self.out.write_all(&bytes).unwrap();
        self.avi.frame_written(jpeg.len(), at);
    }

    fn finish(self) {
        let at = self.out.stream_position().unwrap();
        assert!(self.avi.can_finish(at));
        let end = self.avi.finish(at);
        self.out.write_all(&end.index).unwrap();
        for p in &end.patches {
            self.out.seek(SeekFrom::Start(p.pos)).unwrap();
            self.out.write_all(&p.bytes).unwrap();
        }
    }
}

#[test]
fn writes_riff_avi_header() {
    let mut buf = Cursor::new(Vec::new());
    let w = Recorder::new(&mut buf, 240, 320, 20);
    w.finish();
    let b = buf.into_inner();
    assert_eq!(&b[0..4], b"RIFF");
    assert_eq!(&b[8..12], b"AVI ");
    // RIFF size = file length - 8
    assert_eq!(le_u32(&b, 4) as usize, b.len() - 8);
}

#[test]
fn frames_are_stored_verbatim_and_counted() {
    let mut buf = Cursor::new(Vec::new());
    let mut w = Recorder::new(&mut buf, 4, 4, 25);
    // two fake "jpeg" payloads (odd length forces padding on the first)
    w.write_frame(&[0xFF, 0xD8, 0xAA]);
    w.write_frame(&[0xFF, 0xD8, 0xBB, 0xCC]);
    assert_eq!(w.avi.frame_count(), 2);
    w.finish();
    let b = buf.into_inner();

    // movi + idx1 present, frame payload bytes present
    let movi = find(&b, b"movi").expect("movi");
    assert!(find(&b, b"idx1").is_some());
    assert!(find(&b, &[0xFF, 0xD8, 0xAA]).is_some());

    // dwTotalFrames patched to 2 (avih dwTotalFrames is at a fixed offset:
    // RIFF(12) + LIST/hdrl hdr(12) + avih hdr(8) + 4 fields*4 = 12+12+8+16)
    let total_frames = le_u32(&b, 12 + 12 + 8 + 16);
    assert_eq!(total_frames, 2);

    // first 00dc chunk sits right after "movi"; its idx1 offset must be 4
    let first_chunk = movi + 4;
    assert_eq!(&b[first_chunk..first_chunk + 4], b"00dc");
    let idx = find(&b, b"idx1").unwrap();
    // idx1: "idx1"(4) size(4) then entry: ckid(4) flags(4) offset(4) size(4)
    let first_off = le_u32(&b, idx + 8 + 8);
    assert_eq!(first_off, 4);
}

#[test]
fn every_index_entry_leads_to_its_frame() {
    let frames: Vec<Vec<u8>> = (0..7u8).map(|i| vec![i; 3 * i as usize + 1]).collect();
    let mut buf = Cursor::new(Vec::new());
    let mut w = Recorder::new(&mut buf, 240, 320, 20);
    for f in &frames {
        w.write_frame(f);
    }
    w.finish();
    let b = buf.into_inner();
    assert_eq!(le_u32(&b, 4) as usize, b.len() - 8);
    assert_eq!(le_u32(&b, 48), 7);
    assert_eq!(le_u32(&b, 140), 7);
    assert_eq!(&b[220..224], b"movi");
    let idx = 216 + 4 + le_u32(&b, 216) as usize;
    assert_eq!(&b[idx..idx + 4], b"idx1");
    assert_eq!(le_u32(&b, idx + 4), 7 * 16);
    for (i, f) in frames.iter().enumerate() {
        let entry = idx + 8 + 16 * i;
        assert_eq!(&b[entry..entry + 4], b"00dc");
        assert_eq!(le_u32(&b, entry + 4), 0x10);
        let at = 220 + le_u32(&b, entry + 8) as usize;
        let size = le_u32(&b, entry + 12) as usize;
        assert_eq!(size, f.len());
        assert_eq!(&b[at..at + 4], b"00dc");
        assert_eq!(le_u32(&b, at + 4) as usize, size);
        assert_eq!(&b[at + 8..at + 8 + size], &f[..]);
    }
}

#[test]
fn header_holds_the_format() {
    let (_, h) = AviWriter::new(0, 240, 320, 20);
    assert_eq!(h.len(), 224);
    assert_eq!(le_u32(&h, 32), 50_000); // microseconds per frame
    assert_eq!(le_u32(&h, 44), 0x10); // AVIF_HASINDEX
    assert_eq!((le_u32(&h, 64), le_u32(&h, 68)), (240, 320));
    assert_eq!(&h[108..116], b"vidsMJPG");
    assert_eq!((le_u32(&h, 128), le_u32(&h, 132)), (1, 20)); // scale, rate
    assert_eq!(le_u32(&h, 192), 240 * 320 * 3); // image size
}

#[test]
fn zero_frame_rate_counts_as_one() {
    let (_, zero) = AviWriter::new(0, 240, 320, 0);
    let (_, one) = AviWriter::new(0, 240, 320, 1);
    assert_eq!(zero, one);
}

#[test]
fn huge_pictures_have_a_capped_image_size() {
    let (_, h) = AviWriter::new(0, 0x1_0000, 0x1_0000, 20);
    assert_eq!(le_u32(&h, 192), u32::MAX);
}

#[test]
fn recording_into_a_used_sink_leaves_its_start_alone() {
    let mut buf = Cursor::new(Vec::new());
    buf.write_all(b"before").unwrap();
    let mut w = Recorder::new(&mut buf, 4, 4, 25);
    w.write_frame(&[1, 2, 3]);
    w.finish();
    let b = buf.into_inner();
    assert_eq!(&b[..6], b"before");
    assert_eq!(&b[6..10], b"RIFF");
    assert_eq!(le_u32(&b, 6 + 4) as usize, b.len() - 6 - 8, "the file's own length");
    assert_eq!(le_u32(&b, 6 + 48), 1);
    assert_eq!(&b[6 + 220..6 + 228], b"movi00dc");
}

#[test]
fn frames_that_would_overflow_the_list_are_refused() {
    let (w, _) = AviWriter::new(0, 4, 4, 25);
    assert!(w.accepts(1000, 224));
    assert!(!w.accepts(u32::MAX as usize - 3, 224));
    assert!(!w.accepts(1000, 219), "in front of the list");
}

#[test]
fn a_failed_write_leads_no_entry_astray() {
    let mut buf = Cursor::new(b"old".to_vec());
    buf.seek(SeekFrom::End(0)).unwrap();
    let mut w = Recorder::new(&mut buf, 4, 4, 25);
    w.write_frame(&[1, 2, 3]);
    // the sink takes five bytes of the next chunk, and gives up
    let bytes = w.avi.write_frame(&[9, 9, 9, 9]);
    w.out.write_all(&bytes[..5]).unwrap();
    assert_eq!(w.avi.frame_count(), 1);
    w.write_frame(&[4, 5]);
    assert_eq!(w.avi.frame_count(), 2);
    w.finish();
    let b = &buf.into_inner()[3..];
    assert_eq!(le_u32(b, 4) as usize, b.len() - 8);
    assert_eq!(le_u32(b, 48), 2);
    let idx = find(b, b"idx1").unwrap();
    for (entry, jpeg) in [(idx + 8, &[1u8, 2, 3][..]), (idx + 24, &[4, 5][..])] {
        let at = 220 + le_u32(b, entry + 8) as usize;
        assert_eq!(&b[at..at + 4], b"00dc");
        assert_eq!(&b[at + 8..at + 8 + jpeg.len()], jpeg);
        assert_eq!(le_u32(b, entry + 12) as usize, jpeg.len());
    }
}

#[test]
fn the_index_must_fit_behind_the_start() {
    let (w, _) = AviWriter::new(100, 4, 4, 25);
    assert!(w.can_finish(324));
    assert!(!w.can_finish(99));
    assert!(!w.can_finish(u64::MAX - 7));
    assert!(w.can_finish(u64::MAX - 8));
}
