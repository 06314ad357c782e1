use glitchwing::jpeg::is_decodable;
use glitchwing::video::{decode_into, VIDEO_H, VIDEO_W};

/// Bits of entropy-coded data, most significant first.
struct Bits {
    out: Vec<u8>,
    n: usize,
}

impl Bits {
    fn new() -> Bits {
        Bits { out: Vec::new(), n: 0 }
    }

    fn put(&mut self, value: u32, len: u32) {
        for i in (0..len).rev() {
            if self.n % 8 == 0 {
                self.out.push(0);
            }
            let last = self.out.len() - 1;
            self.out[last] |= ((value >> i & 1) as u8) << (7 - self.n % 8);
            self.n += 1;
        }
    }

    /// A value behind its category.
    fn put_value(&mut self, v: i32, size: u32) {
        self.put(if v < 0 { v + (1 << size) - 1 } else { v } as u32, size);
    }

    /// Fills the last byte with ones, and stuffs zeros.
    fn finish(mut self) -> Vec<u8> {
        while self.n % 8 != 0 {
            self.put(1, 1);
        }
        let mut out = Vec::new();
        for b in self.out {
            out.push(b);
            if b == 0xFF {
                out.push(0);
            }
        }
        out
    }
}

fn category(v: i32) -> u32 {
    32 - v.unsigned_abs().leading_zeros()
}

fn segment(out: &mut Vec<u8>, marker: u8, body: &[u8]) {
    out.extend_from_slice(&[0xFF, marker]);
    out.extend_from_slice(&((body.len() as u16 + 2).to_be_bytes()));
    out.extend_from_slice(body);
}

/// Every DC category in five bits, and every AC symbol but the last in eight.
fn tables() -> Vec<u8> {
    let mut dht = vec![0x00, 0, 0, 0, 0, 16];
    dht.extend_from_slice(&[0; 11]);
    dht.extend(0..16);
    dht.extend_from_slice(&[0x10, 0, 0, 0, 0, 0, 0, 0, 255]);
    dht.extend_from_slice(&[0; 8]);
    dht.extend(0..255);
    dht
}

/// A scan: its components, the tables it names, and what it codes of them.
#[derive(Clone)]
struct Scan {
    components: Vec<usize>,
    table: u8,
    band: (usize, usize),
    high: u8,
    low: u8,
    /// Bytes in place of the coded ones.
    data: Option<Vec<u8>>,
}

fn scan(components: &[usize], band: (usize, usize), high: u8, low: u8) -> Scan {
    Scan { components: components.to_vec(), table: 0, band, high, low, data: None }
}

/// A picture, of the video's size unless told otherwise, in as many ways as a JPEG can
/// hold it.
#[derive(Clone)]
struct Jpeg {
    /// Segments behind the start marker, each with its marker.
    front: Vec<(u8, Vec<u8>)>,
    frame: u8,
    size: (usize, usize),
    sampling: Vec<u8>,
    wide: bool,
    step: u8,
    tables: bool,
    restart: usize,
    scans: Vec<Scan>,
    /// What comes between the scans.
    between: Vec<u8>,
    back: Vec<u8>,
    /// The coefficient of a block of a component, in zigzag order.
    value: fn(usize, usize, usize) -> i32,
}

fn gray(_: usize, _: usize, _: usize) -> i32 {
    0
}

fn busy(c: usize, block: usize, k: usize) -> i32 {
    let x = (block * 37 + k * 101 + c * 53) % 97;
    match k {
        0 => (block % 61) as i32 * 8 - 240,
        1..=5 if x < 60 => x as i32 / 4 - 7,
        6..=40 if x < 9 => x as i32 - 4,
        63 if x < 20 => -3,
        _ => 0,
    }
}

impl Jpeg {
    fn new(sampling: &[u8]) -> Jpeg {
        let all: Vec<usize> = (0..sampling.len()).collect();
        Jpeg {
            front: Vec::new(),
            frame: 0xC0,
            size: (VIDEO_W, VIDEO_H),
            sampling: sampling.to_vec(),
            wide: false,
            step: 1,
            tables: true,
            restart: 0,
            scans: vec![scan(&all, (0, 63), 0, 0)],
            between: Vec::new(),
            back: vec![0xFF, 0xD9],
            value: gray,
        }
    }

    /// Each component in a scan of its own.
    fn one_by_one() -> Jpeg {
        Jpeg {
            scans: (0..3).map(|c| scan(&[c], (0, 63), 0, 0)).collect(),
            ..Jpeg::new(&[0x11; 3])
        }
    }

    /// In many scans, from the upper bits to the lower.
    fn progressive(sampling: &[u8]) -> Jpeg {
        let all: Vec<usize> = (0..sampling.len()).collect();
        let mut scans = vec![scan(&all, (0, 0), 0, 1)];
        for c in &all {
            scans.push(scan(&[*c], (1, 5), 0, 2));
            scans.push(scan(&[*c], (6, 63), 0, 2));
            scans.push(scan(&[*c], (1, 63), 2, 1));
        }
        scans.push(scan(&all, (0, 0), 1, 0));
        for c in &all {
            scans.push(scan(&[*c], (1, 63), 1, 0));
        }
        Jpeg { frame: 0xC2, scans, ..Jpeg::new(sampling) }
    }

    fn factors(&self, c: usize) -> (usize, usize) {
        if self.sampling.len() == 1 {
            return (1, 1);
        }
        ((self.sampling[c] >> 4) as usize, (self.sampling[c] & 15) as usize)
    }

    /// The blocks of a unit of a scan, by component and number.
    fn blocks(&self, s: &Scan) -> Vec<Vec<(usize, usize)>> {
        let (h, v) = self.factors(0);
        let (cols, rows) = (self.size.0.div_ceil(8 * h), self.size.1.div_ceil(8 * v));
        let mut units = Vec::new();
        if self.frame == 0xC2 && s.components.len() == 1 {
            let c = s.components[0];
            let (x, y) = self.factors(c);
            let (w, t) = if c == 0 {
                (self.size.0.div_ceil(8), self.size.1.div_ceil(8))
            } else {
                (cols * x, rows * y)
            };
            return (0..w * t).map(|b| vec![(c, b / w * cols * x + b % w)]).collect();
        }
        for row in 0..rows {
            for col in 0..cols {
                let mut unit = Vec::new();
                for c in &s.components {
                    let (x, y) = self.factors(*c);
                    for dy in 0..y {
                        for dx in 0..x {
                            unit.push((*c, (row * y + dy) * cols * x + col * x + dx));
                        }
                    }
                }
                units.push(unit);
            }
        }
        units
    }

    fn code_block(&self, s: &Scan, bits: &mut Bits, dc: &mut i32, c: usize, block: usize) {
        let at = |k: usize| (self.value)(c, block, k);
        if s.band.0 == 0 {
            if s.high > 0 {
                bits.put((at(0) >> s.low & 1) as u32, 1);
                return;
            }
            let v = at(0) >> s.low;
            let size = category(v - *dc);
            bits.put(size, 5);
            bits.put_value(v - *dc, size);
            *dc = v;
        }
        let shifted = |k: usize| at(k).abs() >> s.low;
        let mut run = 0;
        let mut fixes: Vec<u32> = Vec::new();
        let mut waits = false;
        let band = s.band.0.max(1)..=s.band.1;
        let fresh = |v: i32| v != 0 && (s.high == 0 || v == 1);
        let last_new = band.clone().rev().find(|k| fresh(shifted(*k))).unwrap_or(0);
        for k in band {
            let v = shifted(k);
            if v == 0 {
                run += 1;
                waits = true;
                continue;
            }
            while run > 15 && k <= last_new {
                bits.put(0xF0, 8);
                for f in fixes.drain(..) {
                    bits.put(f, 1);
                }
                run -= 16;
            }
            if !fresh(v) {
                fixes.push((v & 1) as u32);
                waits = true;
                continue;
            }
            let signed = if at(k) < 0 { -v } else { v };
            let size = category(signed);
            bits.put((run << 4) | size, 8);
            bits.put_value(signed, size);
            for f in fixes.drain(..) {
                bits.put(f, 1);
            }
            run = 0;
            waits = false;
        }
        if waits {
            bits.put(0, 8);
            for f in fixes {
                bits.put(f, 1);
            }
        }
    }

    fn bytes(&self) -> Vec<u8> {
        let mut out = vec![0xFF, 0xD8];
        for (marker, body) in &self.front {
            segment(&mut out, *marker, body);
        }
        let mut dqt = vec![(self.wide as u8) << 4];
        for _ in 0..64 {
            if self.wide {
                dqt.push(0);
            }
            dqt.push(self.step);
        }
        segment(&mut out, 0xDB, &dqt);
        let mut sof = vec![8];
        sof.extend_from_slice(&(self.size.1 as u16).to_be_bytes());
        sof.extend_from_slice(&(self.size.0 as u16).to_be_bytes());
        sof.push(self.sampling.len() as u8);
        for (id, s) in self.sampling.iter().enumerate() {
            sof.extend_from_slice(&[id as u8 + 1, *s, 0]);
        }
        segment(&mut out, self.frame, &sof);
        if self.tables {
            segment(&mut out, 0xC4, &tables());
        }
        if self.restart > 0 {
            segment(&mut out, 0xDD, &(self.restart as u16).to_be_bytes());
        }
        for (n, s) in self.scans.iter().enumerate() {
            if n > 0 {
                out.extend_from_slice(&self.between);
            }
            let mut sos = vec![s.components.len() as u8];
            for c in &s.components {
                sos.extend_from_slice(&[*c as u8 + 1, s.table]);
            }
            sos.extend_from_slice(&[s.band.0 as u8, s.band.1 as u8, s.high << 4 | s.low]);
            segment(&mut out, 0xDA, &sos);
            if let Some(data) = &s.data {
                out.extend_from_slice(data);
                continue;
            }
            let units = self.blocks(s);
            let runs = if self.restart == 0 { units.len() } else { self.restart };
            for (r, run) in units.chunks(runs).enumerate() {
                if r > 0 {
                    out.extend_from_slice(&[0xFF, 0xD0 + (r as u8 - 1) % 8]);
                }
                let mut bits = Bits::new();
                let mut dc = [0; 4];
                for unit in run {
                    for (c, block) in unit {
                        self.code_block(s, &mut bits, &mut dc[*c], *c, *block);
                    }
                }
                out.extend_from_slice(&bits.finish());
            }
        }
        out.extend_from_slice(&self.back);
        out
    }

    /// The picture, where the file is let through.
    fn picture(&self) -> Option<Vec<u32>> {
        let jpeg = self.bytes();
        let mut vid = vec![7u32; VIDEO_W * VIDEO_H];
        let ok = decode_into(&jpeg, &mut vid);
        assert_eq!(is_decodable(&jpeg), ok);
        ok.then_some(vid)
    }

    /// Whether it is let through; where it is, it must decode to gray.
    fn decodes(&self) -> bool {
        match self.picture() {
            Some(vid) => {
                assert!(vid.iter().all(|p| *p == 0x0080_8080), "{:x}", vid[0]);
                true
            }
            None => false,
        }
    }
}

#[test]
fn plainly_sampled_pictures_decode() {
    for luma in [0x11, 0x12, 0x21, 0x22] {
        for frame in [0xC0, 0xC1] {
            let jpeg = Jpeg { frame, ..Jpeg::new(&[luma, 0x11, 0x11]) };
            assert!(jpeg.decodes(), "{luma:x} {frame:x}");
        }
        assert!(Jpeg::progressive(&[luma, 0x11, 0x11]).decodes(), "{luma:x}");
    }
}

#[test]
fn both_codings_hold_the_same_picture() {
    for luma in [0x11, 0x12, 0x21, 0x22] {
        let plain = Jpeg { value: busy, step: 3, ..Jpeg::new(&[luma, 0x11, 0x11]) };
        let picture = plain.picture().expect("baseline");
        assert!(picture.iter().any(|p| *p != picture[0]));
        let gradual =
            Jpeg { value: busy, step: 3, ..Jpeg::progressive(&[luma, 0x11, 0x11]) };
        assert!(gradual.picture().expect("progressive") == picture, "{luma:x}");
    }
}

#[test]
fn restarts_change_nothing() {
    let plain = Jpeg { value: busy, ..Jpeg::new(&[0x22, 0x11, 0x11]) };
    let picture = plain.picture().expect("baseline");
    for restart in [1, 7, 100] {
        let parts = Jpeg { restart, ..plain.clone() };
        assert!(parts.picture().expect("restarts") == picture, "{restart}");
    }
    let gradual = Jpeg { value: busy, restart: 7, ..Jpeg::progressive(&[0x22, 0x11, 0x11]) };
    assert!(gradual.picture().expect("progressive") == picture);
}

#[test]
fn many_samplings_decode() {
    for x in [1, 2] {
        for y in [1, 2] {
            let mut chroma = Vec::new();
            for a in 1..=x {
                for b in 1..=y {
                    chroma.push(a << 4 | b);
                }
            }
            for cb in &chroma {
                for cr in &chroma {
                    let sampling = [x << 4 | y, *cb, *cr];
                    assert!(Jpeg::new(&sampling).decodes(), "{sampling:x?}");
                    assert!(Jpeg::progressive(&sampling).decodes(), "{sampling:x?}");
                }
            }
        }
    }
    for luma in [0x14, 0x24, 0x41, 0x42, 0x44] {
        assert!(Jpeg::new(&[luma, 0x11, 0x11]).decodes(), "{luma:x}");
        assert!(Jpeg::progressive(&[luma, 0x11, 0x11]).decodes(), "{luma:x}");
        let mut narrow = Jpeg::new(&[luma, 0x11, 0x11]).bytes();
        let sof = narrow.windows(2).position(|w| w == [0xFF, 0xC0]).unwrap();
        narrow[sof + 7..sof + 9].copy_from_slice(&[0, 16]);
        assert!(is_decodable(&narrow), "{luma:x}");
        decode_into(&narrow, &mut []);
        narrow[sof + 8] = 15;
        assert!(!is_decodable(&narrow), "{luma:x}");
    }
    for luma in [0x11, 0x12, 0x21, 0x22, 0x14, 0x44] {
        assert!(is_decodable(&Jpeg::new(&[luma]).bytes()), "{luma:x}");
        decode_into(&Jpeg::new(&[luma]).bytes(), &mut []);
        decode_into(&Jpeg::new(&[luma, 0x11, 0x11, 0x11]).bytes(), &mut []);
        decode_into(&Jpeg::progressive(&[luma, 0x11, 0x11, 0x11]).bytes(), &mut []);
    }
}

#[test]
fn odd_sampling_is_turned_away() {
    assert!(!Jpeg::new(&[0x11, 0x11, 0x22]).decodes());
    assert!(!Jpeg::new(&[0x24, 0x14, 0x14]).decodes());
    assert!(!Jpeg::new(&[0x41, 0x21, 0x11]).decodes());
    assert!(!Jpeg::new(&[0x13, 0x11, 0x11]).decodes());
    assert!(!Jpeg::progressive(&[0x11, 0x11, 0x22]).decodes());
}

#[test]
fn wide_quantization_tables_decode() {
    assert!(Jpeg { wide: true, ..Jpeg::new(&[0x11; 3]) }.decodes());
    let narrow = Jpeg { value: busy, ..Jpeg::new(&[0x11; 3]) };
    let wide = Jpeg { wide: true, ..narrow.clone() };
    assert!(wide.picture().expect("wide") == narrow.picture().expect("narrow"));
}

#[test]
fn blocks_that_add_up_to_too_much_are_turned_away() {
    fn loud(c: usize, _: usize, k: usize) -> i32 {
        if c == 0 && k == 9 {
            111
        } else {
            0
        }
    }
    assert!(Jpeg { value: loud, step: 252, ..Jpeg::new(&[0x11; 3]) }.picture().is_some());
    assert!(Jpeg { value: loud, step: 253, ..Jpeg::new(&[0x11; 3]) }.picture().is_none());
    assert!(Jpeg { value: loud, step: 252, ..Jpeg::progressive(&[0x11; 3]) }.picture().is_some());
    assert!(Jpeg { value: loud, step: 253, ..Jpeg::progressive(&[0x11; 3]) }.picture().is_none());
}

#[test]
fn dc_values_that_run_away_are_turned_away() {
    fn rising(_: usize, block: usize, k: usize) -> i32 {
        if k == 0 {
            32767 * (block as i32 % 300 + 1)
        } else {
            0
        }
    }
    assert!(Jpeg { value: rising, step: 255, ..Jpeg::new(&[0x11; 3]) }.picture().is_none());
}

#[test]
fn scans_may_come_one_by_one() {
    assert!(Jpeg::one_by_one().decodes());
    let whole = Jpeg { value: busy, ..Jpeg::new(&[0x11; 3]) };
    let parts = Jpeg { value: busy, ..Jpeg::one_by_one() };
    assert!(parts.picture().expect("parts") == whole.picture().expect("whole"));
}

#[test]
fn scans_that_name_missing_tables_are_turned_away() {
    for (n, table) in [(0, 0x01), (1, 0x01), (1, 0x10), (2, 0x11), (2, 0x32)] {
        let mut jpeg = Jpeg::one_by_one();
        jpeg.scans[n].table = table;
        assert!(!jpeg.decodes(), "{n} {table:x}");
    }
}

#[test]
fn scans_behind_a_whole_picture_do_not_matter() {
    let mut jpeg = Jpeg::new(&[0x11; 3]);
    jpeg.scans.push(Scan { table: 0x11, ..scan(&[0], (0, 63), 0, 0) });
    assert!(jpeg.decodes());
}

#[test]
fn tables_may_change_between_progressive_scans() {
    let mut jpeg = Jpeg { value: busy, ..Jpeg::progressive(&[0x11; 3]) };
    let picture = jpeg.picture().expect("one segment");
    segment(&mut jpeg.between, 0xC4, &tables());
    segment(&mut jpeg.between, 0xFE, b"between");
    assert!(jpeg.picture().expect("many") == picture);
    // the tables come too late for the first scan
    jpeg.tables = false;
    assert!(jpeg.picture().is_none());
}

#[test]
fn markers_where_bits_are_needed_are_turned_away() {
    for data in [vec![0xFF, 0xD0], vec![0, 0xFF, 0xD9], vec![0x00, 0x00, 0xFF, 0xD7]] {
        for mut jpeg in [Jpeg::new(&[0x11; 3]), Jpeg::progressive(&[0x11; 3])] {
            for n in 0..jpeg.scans.len() {
                let was = jpeg.scans[n].clone();
                jpeg.scans[n].data = Some(data.clone());
                assert!(!jpeg.decodes(), "{n}");
                jpeg.scans[n] = was;
            }
        }
    }
}

#[test]
fn a_missing_bit_is_noticed() {
    for jpeg in [
        Jpeg { value: busy, ..Jpeg::new(&[0x22, 0x11, 0x11]) },
        Jpeg { value: busy, ..Jpeg::progressive(&[0x22, 0x11, 0x11]) },
    ] {
        let mut bytes = jpeg.bytes();
        assert!(is_decodable(&bytes));
        let n = bytes.len();
        bytes.remove(n - 3);
        if bytes[n - 4] == 0xFF {
            bytes.remove(n - 4);
        }
        assert!(!is_decodable(&bytes));
    }
}

#[test]
fn files_may_stop_in_the_middle_of_a_scan() {
    let bytes = Jpeg { value: busy, ..Jpeg::new(&[0x22, 0x11, 0x11]) }.bytes();
    let mut vid = vec![7u32; VIDEO_W * VIDEO_H];
    let start = bytes.windows(2).position(|w| w == [0xFF, 0xDA]).unwrap() + 14;
    assert!(!is_decodable(&bytes[..start - 1]), "no whole scan header");
    for n in [start, start + 1, start + 777, bytes.len() - 2] {
        assert!(is_decodable(&bytes[..n]), "{n}");
        assert!(decode_into(&bytes[..n], &mut vid), "{n}");
    }
}

#[test]
fn motion_jpegs_have_tables_of_their_own() {
    // DC category 0 is `00` and the end of a block `1010` by the first tables
    let mut first = Bits::new();
    let mut second = Bits::new();
    for _ in 0..VIDEO_W / 8 * VIDEO_H / 8 {
        first.put(0b00_1010, 6);
        second.put(0b00_00, 4);
    }
    let mut jpeg = Jpeg { tables: false, ..Jpeg::one_by_one() };
    jpeg.scans[0].data = Some(first.finish());
    let chroma = second.finish();
    for n in 1..3 {
        jpeg.scans[n].table = 0x11;
        jpeg.scans[n].data = Some(chroma.clone());
    }
    assert!(!jpeg.decodes());
    jpeg.front.push((0xE0, b"AVI1\0\0".to_vec()));
    assert!(jpeg.decodes());
    jpeg.scans[2].table = 0x21;
    assert!(!jpeg.decodes());
}

#[test]
fn other_segments_and_fill_bytes_are_passed_over() {
    let mut jpeg = Jpeg::new(&[0x11; 3]);
    jpeg.front.push((0xFE, vec![0xFF, 0xDB, 0, 67, 0x10]));
    jpeg.front.push((0xE0, vec![b'J'; 5]));
    jpeg.front.push((0xE5, vec![1, 2, 3]));
    assert!(jpeg.decodes());

    let mut bytes = jpeg.bytes();
    bytes.splice(2..2, [1, 2, 0xFF, 0, 0xFF, 0xFF]);
    let mut vid = vec![0u32; VIDEO_W * VIDEO_H];
    assert!(is_decodable(&bytes));
    assert!(decode_into(&bytes, &mut vid));
    assert_eq!(vid[0], 0x0080_8080);
}

#[test]
fn the_byte_behind_a_short_app0_segment_is_not_a_marker() {
    // length six: the decoder takes the 0xFF of what follows as part of it
    let mut bytes = Jpeg::new(&[0x11; 3]).bytes();
    bytes.splice(2..2, [0xFF, 0xE0, 0, 6, 1, 2, 3, 4]);
    assert!(!is_decodable(&bytes), "no quantization table");
    bytes.insert(10, 0);
    assert!(is_decodable(&bytes));
}

#[test]
fn restarts_without_an_end_are_turned_away() {
    let mut jpeg = Jpeg::progressive(&[0x11; 3]);
    let mut admits = |back: &[u8]| {
        jpeg.back = back.to_vec();
        let bytes = jpeg.bytes();
        let mut vid = vec![7u32; VIDEO_W * VIDEO_H];
        (is_decodable(&bytes), decode_into(&bytes, &mut vid))
    };
    assert_eq!(admits(&[0xFF, 0xD3]), (false, false));
    assert_eq!(admits(&[0xFF, 0xD3, 0xFF, 0xD9]), (true, true));
    assert_eq!(admits(&[0xFF, 0xD9, 0xFF, 0xD3]), (true, true));
    assert!(admits(&[]).0, "the decoder may give an error");
    assert_eq!(admits(&[0xFF, 0x01]), (false, false), "an unknown marker");
}

#[test]
fn misleading_color_transforms_are_turned_away() {
    let adobe = |transform: u8| {
        let mut body = b"Adobe".to_vec();
        body.extend_from_slice(&[0, 100, 0, 0, 0, 0, transform]);
        (0xEE, body)
    };
    let mut jpeg = Jpeg::progressive(&[0x11]);
    assert!(is_decodable(&jpeg.bytes()));
    jpeg.front.push(adobe(2));
    assert!(!is_decodable(&jpeg.bytes()));
    jpeg.front[0] = adobe(1);
    assert!(is_decodable(&jpeg.bytes()));

    let mut jpeg = Jpeg::progressive(&[0x11; 4]);
    jpeg.front.push(adobe(1));
    assert!(!is_decodable(&jpeg.bytes()));
    jpeg.front[0] = adobe(0);
    assert!(is_decodable(&jpeg.bytes()));
    let mut jpeg = Jpeg::new(&[0x11; 4]);
    jpeg.front.push(adobe(1));
    assert!(is_decodable(&jpeg.bytes()));
}

/// Changes a few bytes of files that are let through; whatever is then let through must
/// be decoded, or refused by the decoder with an error.
fn damage(mut seed: u64, rounds: usize) {
    let mut random = move |n: usize| {
        seed = seed.wrapping_mul(6364136223846793005).wrapping_add(1442695040888963407);
        (seed >> 33) as usize % n
    };
    let mut whole: Vec<Vec<u8>> = Vec::new();
    for size in [(9, 7), (33, 17), (16, 40)] {
        for sampling in [&[0x11, 0x11, 0x11][..], &[0x22, 0x11, 0x21], &[0x21, 0x11, 0x11], &[0x22]] {
            for restart in [0, 2] {
                for jpeg in [Jpeg::new(sampling), Jpeg::progressive(sampling)] {
                    whole.push(Jpeg { size, restart, value: busy, step: 9, ..jpeg }.bytes());
                }
            }
        }
        whole.push(Jpeg { size, value: busy, ..Jpeg::one_by_one() }.bytes());
    }
    let mut admitted = 0;
    for _ in 0..rounds {
        let mut bytes = whole[random(whole.len())].clone();
        let sof = bytes.windows(2).position(|w| w == [0xFF, 0xC0] || w == [0xFF, 0xC2]).unwrap();
        for _ in 0..1 + random(3) {
            let mut at = random(bytes.len());
            // mostly behind the headers; never the size of the picture
            if random(4) > 0 {
                at = bytes.len() - 1 - random(bytes.len() / 3);
            }
            if (sof + 4..sof + 10).contains(&at) {
                continue;
            }
            match random(5) {
                0 => bytes.truncate(at.max(sof + 20)),
                1 => bytes[at] ^= 1 << random(8),
                2 if at > sof + 20 => {
                    let marker = [0xD0, 0xD9, 0xDA, 0xC4, 0x01, 0xFE][random(6)];
                    bytes.splice(at..at, [0xFF, marker]);
                }
                3 if at > sof + 20 => {
                    bytes.remove(at);
                }
                _ => bytes[at] = random(256) as u8,
            }
        }
        if is_decodable(&bytes) {
            admitted += 1;
            decode_into(&bytes, &mut []);
        }
    }
    assert!(admitted > rounds / 20, "{admitted}");
}

#[test]
fn damage_does_no_harm() {
    damage(1, 2000);
}
