//! Minimal Motion-JPEG AVI muxer.
//!
//! The drone's video stream is already a sequence of JPEG frames, so recording is
//! muxing those frames verbatim into an AVI container with the `MJPG` codec. The
//! result plays in VLC, ffmpeg and most players.
//!
//! The header goes out first with placeholder sizes, then each frame as a `00dc`
//! chunk; at the end come the `idx1` index and four patches: the RIFF size, the
//! frame count, the stream length and the `movi` size. The muxer produces bytes; the
//! caller owns the sink that they are written to, and reports each frame once it has
//! been written, with the position it went to.

use crate::bytes;
use crate::bytes::{le32_bytes, low32, put16, put32, put_all, put_id};
use vstd::prelude::*;

verus! {

/// The four-character codes of chunks, lists, streams and formats.
pub const RIFF: [u8; 4] = [0x52, 0x49, 0x46, 0x46];

pub const AVI: [u8; 4] = [0x41, 0x56, 0x49, 0x20];

pub const LIST: [u8; 4] = [0x4C, 0x49, 0x53, 0x54];

pub const HDRL: [u8; 4] = [0x68, 0x64, 0x72, 0x6C];

pub const AVIH: [u8; 4] = [0x61, 0x76, 0x69, 0x68];

pub const STRL: [u8; 4] = [0x73, 0x74, 0x72, 0x6C];

pub const STRH: [u8; 4] = [0x73, 0x74, 0x72, 0x68];

pub const STRF: [u8; 4] = [0x73, 0x74, 0x72, 0x66];

pub const VIDS: [u8; 4] = [0x76, 0x69, 0x64, 0x73];

pub const MJPG: [u8; 4] = [0x4D, 0x4A, 0x50, 0x47];

pub const MOVI: [u8; 4] = [0x6D, 0x6F, 0x76, 0x69];

pub const IDX1: [u8; 4] = [0x69, 0x64, 0x78, 0x31];

pub const FRAME_ID: [u8; 4] = [0x30, 0x30, 0x64, 0x63];

/// Bytes before the first frame chunk.
pub const HEADER_LEN: u64 = 224;

/// Offsets of the patched fields, and of the `movi` code, from the start of the file.
pub const RIFF_SIZE_POS: u64 = 4;

pub const TOTAL_FRAMES_POS: u64 = 48;

pub const STREAM_LEN_POS: u64 = 140;

pub const MOVI_SIZE_POS: u64 = 216;

pub const MOVI_POS: u64 = 220;

/// What the header says of the video.
pub struct Format {
    pub width: int,
    pub height: int,
    /// At least 1.
    pub fps: int,
}

/// The format for a requested frame rate: zero counts as one.
pub open spec fn format(width: u32, height: u32, fps: u32) -> Format {
    Format {
        width: width as int,
        height: height as int,
        fps: if fps == 0 {
            1
        } else {
            fps as int
        },
    }
}

/// A RIFF chunk: code, size, payload.
pub open spec fn chunk(id: Seq<u8>, body: Seq<u8>) -> Seq<u8> {
    id + bytes::le32(body.len() as int) + body
}

/// A RIFF list: a chunk whose payload starts with the code of its kind.
pub open spec fn list(kind: Seq<u8>, body: Seq<u8>) -> Seq<u8> {
    chunk(LIST@, kind + body)
}

/// The main header: microseconds per frame, flags (`AVIF_HASINDEX`), frame count,
/// one stream, width and height.
pub open spec fn main_header(f: Format, frames: int) -> Seq<u8> {
    bytes::le32(1_000_000int / f.fps) + bytes::le32(0) + bytes::le32(0) + bytes::le32(0x10)
        + bytes::le32(frames) + bytes::le32(0) + bytes::le32(1) + bytes::le32(0) + bytes::le32(
        f.width,
    ) + bytes::le32(f.height) + bytes::le32(0) + bytes::le32(0) + bytes::le32(0) + bytes::le32(0)
}

/// The stream header: MJPEG video at `fps` over 1, stream length, frame rectangle.
pub open spec fn stream_header(f: Format, length: int) -> Seq<u8> {
    VIDS@ + MJPG@ + bytes::le32(0) + bytes::le16(0) + bytes::le16(0) + bytes::le32(0) + bytes::le32(
        1,
    ) + bytes::le32(f.fps) + bytes::le32(0) + bytes::le32(length) + bytes::le32(0) + bytes::le32(
        0xFFFF_FFFF,
    ) + bytes::le32(0) + bytes::le16(0) + bytes::le16(0) + bytes::le16(f.width) + bytes::le16(
        f.height,
    )
}

/// The size in bytes of one decoded frame, at most what 32 bits hold.
pub open spec fn image_size(f: Format) -> int {
    if f.width * f.height * 3 > u32::MAX {
        u32::MAX as int
    } else {
        f.width * f.height * 3
    }
}

/// The stream format: a 40-byte bitmap header, 24 bits per pixel, MJPEG.
pub open spec fn stream_format(f: Format) -> Seq<u8> {
    bytes::le32(40) + bytes::le32(f.width) + bytes::le32(f.height) + bytes::le16(1) + bytes::le16(
        24,
    ) + MJPG@ + bytes::le32(image_size(f)) + bytes::le32(0) + bytes::le32(0) + bytes::le32(0)
        + bytes::le32(0)
}

/// The header list.
#[verifier::opaque]
pub open spec fn header_list(f: Format, frames: int, length: int) -> Seq<u8> {
    list(
        HDRL@,
        chunk(AVIH@, main_header(f, frames)) + list(
            STRL@,
            chunk(STRH@, stream_header(f, length)) + chunk(STRF@, stream_format(f)),
        ),
    )
}

/// Everything before the first frame chunk, with the four patched numbers.
pub open spec fn file_header(f: Format, riff: int, frames: int, length: int, movi: int) -> Seq<u8> {
    RIFF@ + bytes::le32(riff) + AVI@ + header_list(f, frames, length) + LIST@ + bytes::le32(movi)
        + MOVI@
}

/// A frame chunk: code, size, the JPEG as it is, and a zero byte where the size is odd.
pub open spec fn frame_chunk(jpeg: Seq<u8>) -> Seq<u8> {
    chunk(FRAME_ID@, jpeg) + if jpeg.len() % 2 == 1 {
        seq![0u8]
    } else {
        Seq::empty()
    }
}

/// An index entry: code, key-frame flag, offset from the `movi` code, size.
pub open spec fn index_entry(entry: (u32, u32)) -> Seq<u8> {
    FRAME_ID@ + bytes::le32(0x10) + bytes::le32(entry.0 as int) + bytes::le32(entry.1 as int)
}

/// The index entries one after the other.
pub open spec fn index_entries(entries: Seq<(u32, u32)>) -> Seq<u8>
    decreases entries.len(),
{
    if entries.len() == 0 {
        Seq::empty()
    } else {
        index_entries(entries.drop_last()) + index_entry(entries.last())
    }
}

/// What a recording in progress knows: where the file starts in the sink, the index
/// so far, and the size of the `movi` payload.
pub struct Recording {
    pub start: nat,
    pub entries: Seq<(u32, u32)>,
    pub movi_bytes: nat,
}

/// The recording right after the header.
pub open spec fn begun(start: nat) -> Recording {
    Recording { start, entries: Seq::empty(), movi_bytes: 4 }
}

/// The low 32 bits of a number.
pub open spec fn low(n: int) -> int {
    n % 0x1_0000_0000
}

/// The size that a frame adds to the `movi` list, by its 32-bit size field.
pub open spec fn chunk_growth(len: int) -> int {
    8 + low(len) + low(len) % 2
}

/// The recording after a frame of that length has been written at position `at` of
/// the sink.
pub open spec fn with_frame(r: Recording, len: int, at: int) -> Recording {
    Recording {
        start: r.start,
        entries: r.entries.push((low(at - (r.start + MOVI_POS)) as u32, low(len) as u32)),
        movi_bytes: (r.movi_bytes + chunk_growth(len)) as nat,
    }
}

/// Whether a frame of that length at that position can be recorded: it comes after the
/// `movi` code, and the size of the `movi` list is a 32-bit number.
pub open spec fn frame_fits(r: Recording, len: int, at: int) -> bool {
    &&& r.movi_bytes + chunk_growth(len) <= u32::MAX
    &&& r.start + MOVI_POS <= at
}

/// Whether the index can be written at position `at` of the sink: it comes after the
/// start of the file, its size is a 32-bit number, and the sink's positions are 64-bit
/// ones.
pub open spec fn index_fits(r: Recording, at: int) -> bool {
    &&& r.start <= at
    &&& r.entries.len() * 16 <= u32::MAX
    &&& at + 8 + r.entries.len() * 16 <= u64::MAX
}

/// Four bytes to be written at a position of the sink.
#[derive(Clone, Copy, Debug)]
pub struct Patch {
    pub pos: u64,
    pub bytes: [u8; 4],
}

/// What ends a file: the index, to be appended, then the patches.
pub struct Ending {
    pub index: Vec<u8>,
    pub patches: [Patch; 4],
}

/// Streaming MJPEG-in-AVI muxer.
pub struct AviWriter {
    /// Offset from the `movi` code and payload size of each frame.
    frames: Vec<(u32, u32)>,
    start: u64,
    /// Running size of the `movi` list payload.
    movi_bytes: u32,
}

impl View for AviWriter {
    type V = Recording;

    closed spec fn view(&self) -> Recording {
        Recording {
            start: self.start as nat,
            entries: self.frames@,
            movi_bytes: self.movi_bytes as nat,
        }
    }
}

fn main_header_bytes(width: u32, height: u32, fps: u32, frames: u32) -> (out: Vec<u8>)
    requires
        fps >= 1,
    ensures
        out@ == main_header(format(width, height, fps), frames as int),
{
    let mut out: Vec<u8> = Vec::new();
    put32(&mut out, 1_000_000 / fps);
    assert(out@ =~= bytes::le32(1_000_000int / fps as int));
    put32(&mut out, 0);
    put32(&mut out, 0);
    put32(&mut out, 0x10);
    put32(&mut out, frames);
    put32(&mut out, 0);
    put32(&mut out, 1);
    put32(&mut out, 0);
    put32(&mut out, width);
    put32(&mut out, height);
    put32(&mut out, 0);
    put32(&mut out, 0);
    put32(&mut out, 0);
    put32(&mut out, 0);
    out
}

fn stream_header_bytes(width: u32, height: u32, fps: u32, length: u32) -> (out: Vec<u8>)
    requires
        fps >= 1,
    ensures
        out@ == stream_header(format(width, height, fps), length as int),
{
    let mut out: Vec<u8> = Vec::new();
    put_id(&mut out, VIDS);
    assert(out@ =~= VIDS@);
    put_id(&mut out, MJPG);
    put32(&mut out, 0);
    put16(&mut out, 0);
    put16(&mut out, 0);
    put32(&mut out, 0);
    put32(&mut out, 1);
    put32(&mut out, fps);
    put32(&mut out, 0);
    put32(&mut out, length);
    put32(&mut out, 0);
    put32(&mut out, 0xFFFF_FFFF);
    put32(&mut out, 0);
    put16(&mut out, 0);
    put16(&mut out, 0);
    put16(&mut out, width);
    put16(&mut out, height);
    out
}

fn stream_format_bytes(width: u32, height: u32) -> (out: Vec<u8>)
    ensures
        forall|fps: u32| out@ == stream_format(#[trigger] format(width, height, fps)),
{
    let mut out: Vec<u8> = Vec::new();
    put32(&mut out, 40);
    assert(out@ =~= bytes::le32(40));
    put32(&mut out, width);
    put32(&mut out, height);
    put16(&mut out, 1);
    put16(&mut out, 24);
    put_id(&mut out, MJPG);
    put32(&mut out, image_size_of(width, height));
    put32(&mut out, 0);
    put32(&mut out, 0);
    put32(&mut out, 0);
    put32(&mut out, 0);
    out
}

fn image_size_of(width: u32, height: u32) -> (r: u32)
    ensures
        forall|fps: u32| r == image_size(#[trigger] format(width, height, fps)),
{
    assert(0 <= width * height <= 0xFFFF_FFFF * 0xFFFF_FFFF) by (nonlinear_arith)
        requires
            width <= 0xFFFF_FFFF,
            height <= 0xFFFF_FFFF,
    ;
    let area: u64 = width as u64 * height as u64;
    if area > 0xFFFF_FFFF / 3 {
        0xFFFF_FFFF
    } else {
        (area * 3) as u32
    }
}

/// Appends a chunk.
fn put_chunk(out: &mut Vec<u8>, id: [u8; 4], body: &Vec<u8>)
    ensures
        final(out)@ == old(out)@ + chunk(id@, body@),
{
    put_id(out, id);
    put32(out, low32(body.len()));
    put_all(out, body.as_slice());
    proof {
        bytes::le32_truncates(body@.len() as int);
    }
    assert(out@ =~= old(out)@ + chunk(id@, body@));
}

/// Appends a list of the given kind.
fn put_list(out: &mut Vec<u8>, kind: [u8; 4], body: &Vec<u8>)
    ensures
        final(out)@ == old(out)@ + list(kind@, body@),
{
    let mut payload: Vec<u8> = Vec::new();
    put_id(&mut payload, kind);
    put_all(&mut payload, body.as_slice());
    assert(payload@ =~= kind@ + body@);
    put_chunk(out, LIST, &payload);
}

impl AviWriter {
    #[verifier::type_invariant]
    closed spec fn has_header(self) -> bool {
        self.start + HEADER_LEN <= u64::MAX
    }

    /// Begins an AVI for `width` x `height` MJPEG frames at `fps`, in a sink whose
    /// next byte goes to position `start`. Gives the writer and the header bytes
    /// to append.
    pub fn new(start: u64, width: u32, height: u32, fps: u32) -> (r: (AviWriter, Vec<u8>))
        requires
            start + HEADER_LEN <= u64::MAX,
        ensures
            r.0@ == begun(start as nat),
            r.1@ == file_header(format(width, height, fps), 0, 0, 0, 0),
    {
        let rate = if fps == 0 {
            1
        } else {
            fps
        };
        let ghost f = format(width, height, rate);
        assert(f == format(width, height, fps));

        let mut strl: Vec<u8> = Vec::new();
        put_chunk(&mut strl, STRH, &stream_header_bytes(width, height, rate, 0));
        assert(strl@ =~= chunk(STRH@, stream_header(f, 0)));
        put_chunk(&mut strl, STRF, &stream_format_bytes(width, height));

        let mut hdrl: Vec<u8> = Vec::new();
        put_chunk(&mut hdrl, AVIH, &main_header_bytes(width, height, rate, 0));
        assert(hdrl@ =~= chunk(AVIH@, main_header(f, 0)));
        put_list(&mut hdrl, STRL, &strl);

        let mut out: Vec<u8> = Vec::new();
        put_id(&mut out, RIFF);
        assert(out@ =~= RIFF@);
        put32(&mut out, 0);
        put_id(&mut out, AVI);
        put_list(&mut out, HDRL, &hdrl);
        proof {
            reveal(header_list);
        }
        put_id(&mut out, LIST);
        put32(&mut out, 0);
        put_id(&mut out, MOVI);
        let w = AviWriter { frames: Vec::new(), start, movi_bytes: 4 };
        assert(w@.entries =~= Seq::<(u32, u32)>::empty());
        (w, out)
    }

    /// Whether a frame of that length, at that position of the sink, can be recorded.
    pub fn accepts(&self, len: usize, at: u64) -> (b: bool)
        ensures
            b == frame_fits(self@, len as int, at as int),
    {
        proof {
            use_type_invariant(self);
        }
        let size = low32(len);
        let grown: u64 = self.movi_bytes as u64 + 8 + size as u64 + (size % 2) as u64;
        grown <= u32::MAX as u64 && self.start + MOVI_POS <= at
    }

    /// Gives the bytes to append for one JPEG frame: a `00dc` chunk, padded to an
    /// even byte boundary. The frame counts once `frame_written` is called.
    pub fn write_frame(&self, jpeg: &[u8]) -> (out: Vec<u8>)
        ensures
            out@ == frame_chunk(jpeg@),
    {
        let size = low32(jpeg.len());
        let mut out: Vec<u8> = Vec::new();
        put_id(&mut out, FRAME_ID);
        put32(&mut out, size);
        put_all(&mut out, jpeg);
        proof {
            bytes::le32_truncates(jpeg@.len() as int);
        }
        assert(out@ =~= chunk(FRAME_ID@, jpeg@));
        if size % 2 == 1 {
            out.push(0);
        }
        assert(out@ =~= frame_chunk(jpeg@));
        out
    }

    /// Records a frame of length `len` whose bytes have been written at position `at`
    /// of the sink.
    pub fn frame_written(&mut self, len: usize, at: u64)
        requires
            frame_fits(old(self)@, len as int, at as int),
        ensures
            final(self)@ == with_frame(old(self)@, len as int, at as int),
    {
        proof {
            use_type_invariant(&*self);
        }
        let offset = ((at - (self.start + MOVI_POS)) % 0x1_0000_0000) as u32;
        let size = low32(len);
        let mut frames: Vec<(u32, u32)> = Vec::new();
        std::mem::swap(&mut frames, &mut self.frames);
        frames.push((offset, size));
        self.frames = frames;
        self.movi_bytes = self.movi_bytes + (8 + size + size % 2);
    }

    /// Number of frames written so far.
    pub fn frame_count(&self) -> (n: usize)
        ensures
            n == self@.entries.len(),
    {
        self.frames.len()
    }

    /// Whether the index of the frames so far can be written at that position.
    pub fn can_finish(&self, at: u64) -> (b: bool)
        ensures
            b == index_fits(self@, at as int),
    {
        let n = self.frames.len() as u128;
        self.start <= at && n * 16 <= u32::MAX as u128 && at as u128 + 8 + n * 16
            <= u64::MAX as u128
    }

    /// Gives the `idx1` index to write at position `at` of the sink, and the patches of
    /// the placeholder sizes.
    pub fn finish(self, at: u64) -> (end: Ending)
        requires
            index_fits(self@, at as int),
        ensures
            end.index@ == index_chunk(self@),
            forall|k: int|
                0 <= k < 4 ==> (#[trigger] end.patches@[k]).pos == patch_pos(self@, k)
                    && end.patches@[k].bytes@ == patch_bytes(self@, at as int, k),
    {
        proof {
            use_type_invariant(&self);
        }
        let n = self.frames.len();
        let mut entries: Vec<u8> = Vec::new();
        let mut i: usize = 0;
        assert(self.frames@.take(0) =~= Seq::<(u32, u32)>::empty());
        assert(entries@ =~= index_entries(self.frames@.take(0)));
        while i < n
            invariant
                i <= n,
                n == self.frames@.len(),
                entries@ == index_entries(self.frames@.take(i as int)),
            decreases n - i,
        {
            let ghost before = entries@;
            let (off, size) = self.frames[i];
            put_id(&mut entries, FRAME_ID);
            put32(&mut entries, 0x10);
            put32(&mut entries, off);
            put32(&mut entries, size);
            assert(entries@ =~= before + index_entry(self.frames@[i as int]));
            assert(self.frames@.take(i + 1).drop_last() =~= self.frames@.take(i as int));
            i = i + 1;
        }
        assert(self.frames@.take(n as int) =~= self.frames@);
        let mut index: Vec<u8> = Vec::new();
        put_chunk(&mut index, IDX1, &entries);
        assert(index@ =~= index_chunk(self@));
        proof {
            lemma_index_len(self.frames@);
        }
        let count = n as u32;
        let size: u64 = at - self.start + n as u64 * 16;
        let riff = (size % 0x1_0000_0000) as u32;
        proof {
            bytes::le32_truncates(size as int);
        }
        let patches = [
            Patch { pos: self.start + MOVI_SIZE_POS, bytes: le32_bytes(self.movi_bytes) },
            Patch { pos: self.start + TOTAL_FRAMES_POS, bytes: le32_bytes(count) },
            Patch { pos: self.start + STREAM_LEN_POS, bytes: le32_bytes(count) },
            Patch { pos: self.start + RIFF_SIZE_POS, bytes: le32_bytes(riff) },
        ];
        Ending { index, patches }
    }
}

/// The index chunk.
pub open spec fn index_chunk(r: Recording) -> Seq<u8> {
    chunk(IDX1@, index_entries(r.entries))
}

/// Where the `k`th patch goes.
pub open spec fn patch_pos(r: Recording, k: int) -> int {
    if k == 0 {
        r.start + MOVI_SIZE_POS
    } else if k == 1 {
        r.start + TOTAL_FRAMES_POS
    } else if k == 2 {
        r.start + STREAM_LEN_POS
    } else {
        r.start + RIFF_SIZE_POS
    }
}

/// What the `k`th patch writes, for an index at position `at`: the `movi` size, the
/// frame count twice, and the length of the file up to the end of the index, less the
/// eight bytes of the RIFF code and size.
pub open spec fn patch_bytes(r: Recording, at: int, k: int) -> Seq<u8> {
    if k == 0 {
        bytes::le32(r.movi_bytes as int)
    } else if k == 1 || k == 2 {
        bytes::le32(r.entries.len() as int)
    } else {
        bytes::le32(at - r.start + index_chunk(r).len() - 8)
    }
}

proof fn lemma_index_len(entries: Seq<(u32, u32)>)
    ensures
        index_entries(entries).len() == 16 * entries.len(),
    decreases entries.len(),
{
    if entries.len() > 0 {
        lemma_index_len(entries.drop_last());
    }
}

/// The frame chunks one after the other.
pub open spec fn frame_chunks(frames: Seq<Seq<u8>>) -> Seq<u8>
    decreases frames.len(),
{
    if frames.len() == 0 {
        Seq::empty()
    } else {
        frame_chunks(frames.drop_last()) + frame_chunk(frames.last())
    }
}

/// Where the bytes behind the given frames go, in a file that starts at `start`.
pub open spec fn end_of_frames(start: nat, frames: Seq<Seq<u8>>) -> int {
    start + HEADER_LEN + frame_chunks(frames).len()
}

/// The recording after the given frames, one written behind the other.
pub open spec fn recorded(start: nat, frames: Seq<Seq<u8>>) -> Recording
    decreases frames.len(),
{
    if frames.len() == 0 {
        begun(start)
    } else {
        with_frame(
            recorded(start, frames.drop_last()),
            frames.last().len() as int,
            end_of_frames(start, frames.drop_last()),
        )
    }
}

/// A sink after bytes have been written over what stood at `pos`.
pub open spec fn overwritten(sink: Seq<u8>, pos: int, new: Seq<u8>) -> Seq<u8> {
    Seq::new(
        sink.len(),
        |i: int|
            if pos <= i < pos + new.len() {
                new[i - pos]
            } else {
                sink[i]
            },
    )
}

/// A sink after the first `n` patches of a recording whose index stands at `at`.
pub open spec fn patched(sink: Seq<u8>, r: Recording, at: int, n: nat) -> Seq<u8>
    decreases n,
{
    if n == 0 {
        sink
    } else {
        overwritten(
            patched(sink, r, at, (n - 1) as nat),
            patch_pos(r, n - 1),
            patch_bytes(r, at, n - 1),
        )
    }
}

/// What is written to the sink between `new` and `finish`, before the patches.
pub open spec fn streamed(f: Format, start: nat, frames: Seq<Seq<u8>>) -> Seq<u8> {
    file_header(f, 0, 0, 0, 0) + frame_chunks(frames) + index_chunk(recorded(start, frames))
}

/// The index of the given frames: each one's offset from the `movi` code, and size.
pub open spec fn frame_index(frames: Seq<Seq<u8>>) -> Seq<(u32, u32)> {
    Seq::new(
        frames.len(),
        |i: int|
            (
                low(4int + frame_chunks(frames.take(i)).len()) as u32,
                low(frames[i].len() as int) as u32,
            ),
    )
}

/// A complete AVI file: one RIFF chunk that holds the header list with the frame
/// count, the list of frames, and the index.
pub open spec fn avi_file(f: Format, frames: Seq<Seq<u8>>) -> Seq<u8> {
    chunk(
        RIFF@,
        AVI@ + header_list(f, frames.len() as int, frames.len() as int) + list(
            MOVI@,
            frame_chunks(frames),
        ) + chunk(IDX1@, index_entries(frame_index(frames))),
    )
}

/// Whether the length of every frame is a 32-bit number.
pub open spec fn short_frames(frames: Seq<Seq<u8>>) -> bool {
    forall|i: int| 0 <= i < frames.len() ==> (#[trigger] frames[i]).len() < 0x1_0000_0000
}

proof fn lemma_entries(start: nat, frames: Seq<Seq<u8>>)
    ensures
        recorded(start, frames).start == start,
        recorded(start, frames).entries == frame_index(frames),
    decreases frames.len(),
{
    let r = recorded(start, frames);
    if frames.len() > 0 {
        let front = frames.drop_last();
        lemma_entries(start, front);
        let last = (
            low(4int + frame_chunks(front).len()) as u32,
            low(frames.last().len() as int) as u32,
        );
        assert(end_of_frames(start, front) - (start + MOVI_POS) == 4 + frame_chunks(front).len());
        assert(r.entries == frame_index(front).push(last));
        assert(frames.take(frames.len() - 1) =~= front);
        assert forall|i: int| 0 <= i < front.len() implies #[trigger] frame_index(front)[i]
            == frame_index(frames)[i] by {
            assert(front.take(i) =~= frames.take(i));
            assert(front[i] == frames[i]);
        }
    }
    assert(r.entries =~= frame_index(frames));
}

proof fn lemma_growth(jpeg: Seq<u8>)
    requires
        jpeg.len() < 0x1_0000_0000,
    ensures
        frame_chunk(jpeg).len() == chunk_growth(jpeg.len() as int),
{
}

proof fn lemma_movi_bytes(start: nat, frames: Seq<Seq<u8>>)
    requires
        short_frames(frames),
    ensures
        recorded(start, frames).movi_bytes == 4 + frame_chunks(frames).len(),
    decreases frames.len(),
{
    if frames.len() > 0 {
        let front = frames.drop_last();
        assert forall|i: int| 0 <= i < front.len() implies (#[trigger] front[i]).len()
            < 0x1_0000_0000 by {
            assert(front[i] == frames[i]);
        }
        lemma_movi_bytes(start, front);
        assert(frames[frames.len() - 1].len() < 0x1_0000_0000);
        lemma_growth(frames.last());
    }
}

proof fn lemma_recorded(start: nat, frames: Seq<Seq<u8>>)
    ensures
        recorded(start, frames).start == start,
        recorded(start, frames).entries == frame_index(frames),
        short_frames(frames) ==> recorded(start, frames).movi_bytes == 4 + frame_chunks(
            frames,
        ).len(),
{
    lemma_entries(start, frames);
    if short_frames(frames) {
        lemma_movi_bytes(start, frames);
    }
}

// The parts of the header between the patched numbers.
#[verifier::opaque]
spec fn main_front(f: Format) -> Seq<u8> {
    AVIH@ + bytes::le32(56) + bytes::le32(1_000_000int / f.fps) + bytes::le32(0) + bytes::le32(0)
        + bytes::le32(0x10)
}

#[verifier::opaque]
spec fn main_back(f: Format) -> Seq<u8> {
    bytes::le32(0) + bytes::le32(1) + bytes::le32(0) + bytes::le32(f.width) + bytes::le32(f.height)
        + bytes::le32(0) + bytes::le32(0) + bytes::le32(0) + bytes::le32(0)
}

#[verifier::opaque]
spec fn stream_front(f: Format) -> Seq<u8> {
    STRH@ + bytes::le32(56) + (VIDS@ + MJPG@ + bytes::le32(0) + bytes::le16(0) + bytes::le16(0)
        + bytes::le32(0) + bytes::le32(1) + bytes::le32(f.fps) + bytes::le32(0))
}

#[verifier::opaque]
spec fn stream_back(f: Format) -> Seq<u8> {
    bytes::le32(0) + bytes::le32(0xFFFF_FFFF) + bytes::le32(0) + bytes::le16(0) + bytes::le16(0)
        + bytes::le16(f.width) + bytes::le16(f.height)
}

#[verifier::opaque]
spec fn format_chunk(f: Format) -> Seq<u8> {
    chunk(STRF@, stream_format(f))
}

#[verifier::opaque]
spec fn list_front(kind: Seq<u8>, size: int) -> Seq<u8> {
    LIST@ + bytes::le32(size) + kind
}

// The header cut at the patched numbers.
#[verifier::opaque]
spec fn upto_frames(f: Format) -> Seq<u8> {
    AVI@ + (list_front(HDRL@, 192) + main_front(f))
}

#[verifier::opaque]
spec fn upto_length(f: Format) -> Seq<u8> {
    main_back(f) + (list_front(STRL@, 116) + stream_front(f))
}

#[verifier::opaque]
spec fn upto_movi(f: Format) -> Seq<u8> {
    (stream_back(f) + format_chunk(f)) + LIST@
}

proof fn lemma_main_header(f: Format, frames: int)
    ensures
        main_front(f).len() == 24,
        main_back(f).len() == 36,
        chunk(AVIH@, main_header(f, frames)) == main_front(f) + bytes::le32(frames) + main_back(f),
{
    reveal(main_front);
    reveal(main_back);
    assert(main_header(f, frames).len() == 56);
    assert(chunk(AVIH@, main_header(f, frames)) =~= main_front(f) + bytes::le32(frames)
        + main_back(f));
}

proof fn lemma_stream_header(f: Format, length: int)
    ensures
        stream_front(f).len() == 40,
        stream_back(f).len() == 20,
        chunk(STRH@, stream_header(f, length)) == stream_front(f) + bytes::le32(length)
            + stream_back(f),
{
    reveal(stream_front);
    reveal(stream_back);
    assert(stream_header(f, length).len() == 56);
    assert(chunk(STRH@, stream_header(f, length)) =~= stream_front(f) + bytes::le32(length)
        + stream_back(f));
}

proof fn lemma_format_chunk(f: Format)
    ensures
        format_chunk(f).len() == 48,
{
    reveal(format_chunk);
    assert(stream_format(f).len() == 40);
}

proof fn lemma_upto(f: Format)
    ensures
        upto_frames(f).len() == 40,
        upto_length(f).len() == 88,
        upto_movi(f).len() == 72,
{
    reveal(upto_frames);
    reveal(upto_length);
    reveal(upto_movi);
    reveal(list_front);
    lemma_main_header(f, 0);
    lemma_stream_header(f, 0);
    lemma_format_chunk(f);
}

// A list whose payload is cut in three, with its code and size in the first part.
proof fn lemma_list_cut(kind: Seq<u8>, a: Seq<u8>, x: Seq<u8>, b: Seq<u8>)
    ensures
        list(kind, a + x + b) == (list_front(kind, (kind + (a + x + b)).len() as int) + a) + x + b,
{
    reveal(list_front);
    let head = LIST@ + bytes::le32((kind + (a + x + b)).len() as int);
    lemma_assoc(head, kind, a + x + b);
    lemma_assoc(head + kind, a + x, b);
    lemma_assoc(head + kind, a, x);
}

proof fn lemma_header_list(f: Format, frames: int, length: int)
    ensures
        header_list(f, frames, length).len() == 200,
        AVI@ + header_list(f, frames, length) + LIST@ == upto_frames(f) + bytes::le32(frames)
            + upto_length(f) + bytes::le32(length) + upto_movi(f),
{
    lemma_main_header(f, frames);
    lemma_stream_header(f, length);
    lemma_format_chunk(f);
    let (wf, wl) = (bytes::le32(frames), bytes::le32(length));
    let (mf, mb) = (main_front(f), main_back(f));
    let (sf, sb) = (stream_front(f), stream_back(f));
    let fc = format_chunk(f);
    // the stream list
    let tail = sb + fc;
    let strl = list(STRL@, sf + wl + sb + fc);
    lemma_assoc(sf + wl, sb, fc);
    assert((STRL@ + (sf + wl + tail)).len() == 116);
    lemma_list_cut(STRL@, sf, wl, tail);
    let p = list_front(STRL@, 116) + sf;
    assert(strl == p + wl + tail);
    // the header list
    let all = list(HDRL@, mf + wf + mb + strl);
    assert(all == header_list(f, frames, length)) by {
        reveal(header_list);
        reveal(format_chunk);
    }
    lemma_assoc(mf + wf, mb, strl);
    let rest = mb + strl;
    assert(list_front(STRL@, 116).len() == 12) by {
        reveal(list_front);
    }
    assert((HDRL@ + (mf + wf + rest)).len() == 192);
    lemma_list_cut(HDRL@, mf, wf, rest);
    let q = list_front(HDRL@, 192) + mf;
    assert(all == q + wf + rest);
    assert(list_front(HDRL@, 192).len() == 12) by {
        reveal(list_front);
    }
    // both, between the file's kind and the next list
    lemma_assoc(mb, p + wl, tail);
    lemma_assoc(mb, p, wl);
    assert(rest == mb + p + wl + tail);
    let (u1, u2, u3) = (AVI@ + q, mb + p, tail + LIST@);
    assert(u1 == upto_frames(f)) by {
        reveal(upto_frames);
    }
    assert(u2 == upto_length(f)) by {
        reveal(upto_length);
    }
    assert(u3 == upto_movi(f)) by {
        reveal(upto_movi);
    }
    lemma_assoc(AVI@, q + wf, rest);
    lemma_assoc(AVI@, q, wf);
    assert(AVI@ + all == u1 + wf + (u2 + wl + tail));
    lemma_assoc(u1 + wf, u2 + wl, tail);
    lemma_assoc(u1 + wf, u2, wl);
    lemma_assoc(u1 + wf + u2 + wl, tail, LIST@);
}

proof fn lemma_header_cut(f: Format, riff: int, frames: int, length: int, movi: int)
    ensures
        upto_frames(f).len() == 40,
        upto_length(f).len() == 88,
        upto_movi(f).len() == 72,
        file_header(f, riff, frames, length, movi) == RIFF@ + bytes::le32(riff) + upto_frames(f)
            + bytes::le32(frames) + upto_length(f) + bytes::le32(length) + upto_movi(f)
            + bytes::le32(movi) + MOVI@,
        file_header(f, riff, frames, length, movi).len() == HEADER_LEN,
        header_list(f, frames, length).len() == 200,
{
    lemma_upto(f);
    lemma_header_list(f, frames, length);
    let x = RIFF@ + bytes::le32(riff);
    let hl = header_list(f, frames, length);
    let (u1, u2, u3) = (upto_frames(f), upto_length(f), upto_movi(f));
    let (wf, wl) = (bytes::le32(frames), bytes::le32(length));
    lemma_assoc(x, AVI@, hl);
    lemma_assoc(x, AVI@ + hl, LIST@);
    lemma_assoc(x, u1 + wf + u2 + wl, u3);
    lemma_assoc(x, u1 + wf + u2, wl);
    lemma_assoc(x, u1 + wf, u2);
    lemma_assoc(x, u1, wf);
}

proof fn lemma_overwritten(a: Seq<u8>, x: Seq<u8>, y: Seq<u8>, b: Seq<u8>)
    requires
        x.len() == y.len(),
    ensures
        overwritten(a + x + b, a.len() as int, y) == a + y + b,
{
    assert(overwritten(a + x + b, a.len() as int, y) =~= a + y + b);
}

proof fn lemma_assoc(a: Seq<u8>, b: Seq<u8>, c: Seq<u8>)
    ensures
        a + b + c == a + (b + c),
{
    assert(a + b + c =~= a + (b + c));
}

proof fn lemma_patch_cut(
    before: Seq<u8>,
    a: Seq<u8>,
    x: Seq<u8>,
    y: Seq<u8>,
    b: Seq<u8>,
    rest: Seq<u8>,
)
    requires
        x.len() == y.len(),
    ensures
        overwritten(before + (a + x + b) + rest, (before.len() + a.len()) as int, y) == before + (a
            + y + b) + rest,
{
    lemma_overwritten(before + a, x, y, b + rest);
    assert(before + (a + x + b) + rest =~= (before + a) + x + (b + rest));
    assert(before + (a + y + b) + rest =~= (before + a) + y + (b + rest));
}

// The header as the bytes before a patched number, the number, and the bytes after it.
spec fn before_patch(f: Format, riff: int, frames: int, length: int, k: int) -> Seq<u8> {
    if k == 0 {
        RIFF@ + bytes::le32(riff) + upto_frames(f) + bytes::le32(frames) + upto_length(f)
            + bytes::le32(length) + upto_movi(f)
    } else if k == 1 {
        RIFF@ + bytes::le32(riff) + upto_frames(f)
    } else if k == 2 {
        RIFF@ + bytes::le32(riff) + upto_frames(f) + bytes::le32(frames) + upto_length(f)
    } else {
        RIFF@
    }
}

spec fn after_patch(f: Format, frames: int, length: int, movi: int, k: int) -> Seq<u8> {
    if k == 0 {
        MOVI@
    } else if k == 1 {
        upto_length(f) + bytes::le32(length) + upto_movi(f) + bytes::le32(movi) + MOVI@
    } else if k == 2 {
        upto_movi(f) + bytes::le32(movi) + MOVI@
    } else {
        upto_frames(f) + bytes::le32(frames) + upto_length(f) + bytes::le32(length) + upto_movi(f)
            + bytes::le32(movi) + MOVI@
    }
}

proof fn lemma_header_around(f: Format, riff: int, frames: int, length: int, movi: int, k: int)
    requires
        0 <= k < 4,
    ensures
        before_patch(f, riff, frames, length, k).len() == patch_pos(begun(0), k),
        file_header(f, riff, frames, length, movi) == before_patch(f, riff, frames, length, k)
            + bytes::le32(
            if k == 0 {
                movi
            } else if k == 1 {
                frames
            } else if k == 2 {
                length
            } else {
                riff
            },
        ) + after_patch(f, frames, length, movi, k),
{
    lemma_header_cut(f, riff, frames, length, movi);
    let (p, q, u) = (upto_frames(f), upto_length(f), upto_movi(f));
    let (wr, wf, wl, wm) = (
        bytes::le32(riff),
        bytes::le32(frames),
        bytes::le32(length),
        bytes::le32(movi),
    );
    if k == 1 {
        let x = RIFF@ + wr + p + wf;
        lemma_assoc(x, q, wl);
        lemma_assoc(x, q + wl, u);
        lemma_assoc(x, q + wl + u, wm);
        lemma_assoc(x, q + wl + u + wm, MOVI@);
    } else if k == 2 {
        let x = RIFF@ + wr + p + wf + q + wl;
        lemma_assoc(x, u, wm);
        lemma_assoc(x, u + wm, MOVI@);
    } else if k == 3 {
        let x = RIFF@ + wr;
        lemma_assoc(x, p, wf);
        lemma_assoc(x, p + wf, q);
        lemma_assoc(x, p + wf + q, wl);
        lemma_assoc(x, p + wf + q + wl, u);
        lemma_assoc(x, p + wf + q + wl + u, wm);
        lemma_assoc(x, p + wf + q + wl + u + wm, MOVI@);
    }
}

// The sink with one number of the header filled in.
proof fn lemma_patch(
    before: Seq<u8>,
    f: Format,
    riff: int,
    frames: int,
    length: int,
    movi: int,
    k: int,
    v: int,
    rest: Seq<u8>,
)
    requires
        0 <= k < 4,
    ensures
        overwritten(
            before + file_header(f, riff, frames, length, movi) + rest,
            before.len() + patch_pos(begun(0), k),
            bytes::le32(v),
        ) == before + (if k == 0 {
            file_header(f, riff, frames, length, v)
        } else if k == 1 {
            file_header(f, riff, v, length, movi)
        } else if k == 2 {
            file_header(f, riff, frames, v, movi)
        } else {
            file_header(f, v, frames, length, movi)
        }) + rest,
{
    let was = bytes::le32(
        if k == 0 {
            movi
        } else if k == 1 {
            frames
        } else if k == 2 {
            length
        } else {
            riff
        },
    );
    lemma_header_around(f, riff, frames, length, movi, k);
    lemma_patch_cut(
        before,
        before_patch(f, riff, frames, length, k),
        was,
        bytes::le32(v),
        after_patch(f, frames, length, movi, k),
        rest,
    );
    if k == 0 {
        lemma_header_around(f, riff, frames, length, v, k);
    } else if k == 1 {
        lemma_header_around(f, riff, v, length, movi, k);
    } else if k == 2 {
        lemma_header_around(f, riff, frames, v, movi, k);
    } else {
        lemma_header_around(f, v, frames, length, movi, k);
    }
}

/// The patches fill in the header and touch nothing else: not what the sink held
/// before the file, not the frames, not the index.
pub proof fn patches_fill_in_header(before: Seq<u8>, f: Format, frames: Seq<Seq<u8>>)
    ensures
        ({
            let r = recorded(before.len(), frames);
            let at = end_of_frames(before.len(), frames);
            let n = frames.len() as int;
            patched(before + streamed(f, before.len(), frames), r, at, 4) == before + file_header(
                f,
                at - before.len() + index_chunk(r).len() - 8,
                n,
                n,
                r.movi_bytes as int,
            ) + (frame_chunks(frames) + index_chunk(r))
        }),
{
    let r = recorded(before.len(), frames);
    let at = end_of_frames(before.len(), frames);
    let n = frames.len() as int;
    lemma_recorded(before.len(), frames);
    let rest = frame_chunks(frames) + index_chunk(r);
    let sink = before + streamed(f, before.len(), frames);
    assert(sink =~= before + file_header(f, 0, 0, 0, 0) + rest);
    let m = r.movi_bytes as int;
    let e = at - before.len() + index_chunk(r).len() - 8;
    reveal_with_fuel(patched, 5);
    lemma_patch(before, f, 0, 0, 0, 0, 0, m, rest);
    lemma_patch(before, f, 0, 0, 0, m, 1, n, rest);
    lemma_patch(before, f, 0, n, 0, m, 2, n, rest);
    lemma_patch(before, f, 0, n, n, m, 3, e, rest);
}

/// What is recorded, wherever in a sink it starts, is a complete AVI file that holds
/// the frames as they were given: every size in it is the size of what it heads. What
/// the sink held before stays in front of it.
pub proof fn recording_is_avi_file(before: Seq<u8>, f: Format, frames: Seq<Seq<u8>>)
    requires
        short_frames(frames),
    ensures
        patched(
            before + streamed(f, before.len(), frames),
            recorded(before.len(), frames),
            end_of_frames(before.len(), frames),
            4,
        ) == before + avi_file(f, frames),
{
    let r = recorded(before.len(), frames);
    let n = frames.len() as int;
    lemma_recorded(before.len(), frames);
    patches_fill_in_header(before, f, frames);
    let e = HEADER_LEN + frame_chunks(frames).len() + index_chunk(r).len() - 8;
    let m = r.movi_bytes as int;
    lemma_header_cut(f, e, n, n, m);
    let hl = header_list(f, n, n);
    let body = AVI@ + hl + list(MOVI@, frame_chunks(frames)) + index_chunk(r);
    let rest = frame_chunks(frames) + index_chunk(r);
    assert((MOVI@ + frame_chunks(frames)).len() == m);
    assert(body.len() == e);
    assert(file_header(f, e, n, n, m) + rest =~= avi_file(f, frames));
    lemma_assoc(before, file_header(f, e, n, n, m), rest);
}

proof fn lemma_avi_file(f: Format, frames: Seq<Seq<u8>>)
    ensures
        ({
            let n = frames.len() as int;
            let header = file_header(
                f,
                avi_file(f, frames).len() - 8,
                n,
                n,
                4int + frame_chunks(frames).len(),
            );
            &&& header.len() == HEADER_LEN
            &&& avi_file(f, frames) == header + (frame_chunks(frames) + chunk(
                IDX1@,
                index_entries(frame_index(frames)),
            ))
        }),
{
    let n = frames.len() as int;
    let file = avi_file(f, frames);
    let m = 4int + frame_chunks(frames).len();
    lemma_header_cut(f, file.len() - 8, n, n, m);
    assert((MOVI@ + frame_chunks(frames)).len() == m);
    assert(file =~= file_header(f, file.len() - 8, n, n, m) + (frame_chunks(frames) + chunk(
        IDX1@,
        index_entries(frame_index(frames)),
    )));
}

/// The RIFF size of a file is its length less eight, the header holds the number
/// of frames, and the size of the `movi` list is that of the frame chunks and its code.
pub proof fn avi_file_sizes(f: Format, frames: Seq<Seq<u8>>)
    ensures
        bytes::read32(avi_file(f, frames), RIFF_SIZE_POS as int) == low(
            avi_file(f, frames).len() - 8,
        ),
        bytes::read32(avi_file(f, frames), TOTAL_FRAMES_POS as int) == low(frames.len() as int),
        bytes::read32(avi_file(f, frames), STREAM_LEN_POS as int) == low(frames.len() as int),
        bytes::read32(avi_file(f, frames), MOVI_SIZE_POS as int) == low(
            4int + frame_chunks(frames).len(),
        ),
{
    let n = frames.len() as int;
    let file = avi_file(f, frames);
    let idx = chunk(IDX1@, index_entries(frame_index(frames)));
    let m = 4int + frame_chunks(frames).len();
    let e = file.len() - 8;
    let rest = frame_chunks(frames) + idx;
    lemma_avi_file(f, frames);
    assert forall|k: int| 0 <= k < 4 implies bytes::read32(file, #[trigger] patch_pos(begun(0), k))
        == low(
        if k == 0 {
            m
        } else if k == 3 {
            e
        } else {
            n
        },
    ) by {
        lemma_header_around(f, e, n, n, m, k);
        let a = before_patch(f, e, n, n, k);
        let b = after_patch(f, n, n, m, k);
        let v = if k == 0 {
            m
        } else if k == 3 {
            e
        } else {
            n
        };
        lemma_assoc(a + bytes::le32(v), b, rest);
        bytes::le32_reads_back(v, a, b + rest);
    }
    assert(patch_pos(begun(0), 0) == MOVI_SIZE_POS);
    assert(patch_pos(begun(0), 1) == TOTAL_FRAMES_POS);
    assert(patch_pos(begun(0), 2) == STREAM_LEN_POS);
    assert(patch_pos(begun(0), 3) == RIFF_SIZE_POS);
}

proof fn lemma_chunk_at(frames: Seq<Seq<u8>>, i: int)
    requires
        0 <= i < frames.len(),
    ensures
        ({
            let off = frame_chunks(frames.take(i)).len();
            &&& off + frame_chunk(frames[i]).len() <= frame_chunks(frames).len()
            &&& frame_chunks(frames).subrange(
                off as int,
                (off + frame_chunk(frames[i]).len()) as int,
            ) == frame_chunk(frames[i])
        }),
    decreases frames.len(),
{
    let front = frames.drop_last();
    let off = frame_chunks(frames.take(i)).len();
    if i == frames.len() - 1 {
        assert(frames.take(i) =~= front);
        assert(frame_chunks(frames).subrange(
            off as int,
            (off + frame_chunk(frames[i]).len()) as int,
        ) =~= frame_chunk(frames[i]));
    } else {
        lemma_chunk_at(front, i);
        assert(front.take(i) =~= frames.take(i));
        assert(front[i] == frames[i]);
        assert(frame_chunks(frames).subrange(
            off as int,
            (off + frame_chunk(frames[i]).len()) as int,
        ) =~= frame_chunks(front).subrange(
            off as int,
            (off + frame_chunk(frames[i]).len()) as int,
        ));
    }
}

/// Whether a `00dc` chunk with this payload stands at that position.
#[verifier::opaque]
pub open spec fn frame_at(file: Seq<u8>, at: int, jpeg: Seq<u8>) -> bool {
    &&& 0 <= at
    &&& at + 8 + jpeg.len() <= file.len()
    &&& file.subrange(at, at + 4) == FRAME_ID@
    &&& bytes::read32(file, at + 4) == jpeg.len()
    &&& file.subrange(at + 8, at + 8 + jpeg.len()) == jpeg
}

proof fn lemma_frame_in(pre: Seq<u8>, jpeg: Seq<u8>, post: Seq<u8>)
    requires
        jpeg.len() < 0x1_0000_0000,
    ensures
        frame_at(pre + frame_chunk(jpeg) + post, pre.len() as int, jpeg),
{
    let file = pre + frame_chunk(jpeg) + post;
    let at = pre.len() as int;
    let size = bytes::le32(jpeg.len() as int);
    let pad = if jpeg.len() % 2 == 1 {
        seq![0u8]
    } else {
        Seq::empty()
    };
    let a = pre + FRAME_ID@;
    let b = jpeg + pad + post;
    assert(file =~= a + size + b);
    bytes::le32_reads_back(jpeg.len() as int, a, b);
    assert(file.subrange(at, at + 4) =~= FRAME_ID@);
    assert(file.subrange(at + 8, at + 8 + jpeg.len()) =~= jpeg);
    reveal(frame_at);
}

proof fn lemma_within(header: Seq<u8>, all: Seq<u8>, c: Seq<u8>, rel: int, idx: Seq<u8>)
    requires
        0 <= rel <= rel + c.len() <= all.len(),
        all.subrange(rel, rel + c.len()) == c,
    ensures
        header + (all + idx) == (header + all.take(rel)) + c + (all.skip(rel + c.len()) + idx),
{
    let (head, tail) = (all.take(rel), all.skip(rel + c.len()));
    assert forall|j: int| 0 <= j < all.len() implies all[j] == (head + c + tail)[j] by {
        if rel <= j < rel + c.len() {
            assert(all.subrange(rel, rel + c.len())[j - rel] == c[j - rel]);
        }
    }
    assert(all =~= head + c + tail);
    assert(header + (head + c + tail + idx) =~= (header + head) + c + (tail + idx));
}

proof fn lemma_index_at(frames: Seq<Seq<u8>>, i: int)
    requires
        0 <= i < frames.len(),
        4 + frame_chunks(frames).len() < 0x1_0000_0000,
    ensures
        frame_index(frames)[i].0 == 4 + frame_chunks(frames.take(i)).len(),
        frame_index(frames)[i].1 == frames[i].len(),
        frames[i].len() < 0x1_0000_0000,
{
    lemma_chunk_at(frames, i);
}

proof fn lemma_frame_within(header: Seq<u8>, frames: Seq<Seq<u8>>, i: int, idx: Seq<u8>)
    requires
        0 <= i < frames.len(),
        frames[i].len() < 0x1_0000_0000,
    ensures
        frame_at(
            header + (frame_chunks(frames) + idx),
            (header.len() + frame_chunks(frames.take(i)).len()) as int,
            frames[i],
        ),
{
    let all = frame_chunks(frames);
    let rel = frame_chunks(frames.take(i)).len() as int;
    let c = frame_chunk(frames[i]);
    lemma_chunk_at(frames, i);
    lemma_within(header, all, c, rel, idx);
    lemma_frame_in(header + all.take(rel), frames[i], all.skip(rel + c.len()) + idx);
}

/// Every index entry of a file below 4 GiB points at its frame: its offset, counted
/// from the `movi` code, leads to a `00dc` chunk, and as many bytes as its size says
/// follow there, which are the JPEG as it was given.
pub proof fn index_points_at_frames(f: Format, frames: Seq<Seq<u8>>, i: int)
    requires
        0 <= i < frames.len(),
        4 + frame_chunks(frames).len() < 0x1_0000_0000,
    ensures
        frame_index(frames)[i].1 == frames[i].len(),
        frame_at(avi_file(f, frames), MOVI_POS + frame_index(frames)[i].0, frames[i]),
{
    let n = frames.len() as int;
    let e = avi_file(f, frames).len() - 8;
    let header = file_header(f, e, n, n, 4int + frame_chunks(frames).len());
    let idx = chunk(IDX1@, index_entries(frame_index(frames)));
    lemma_avi_file(f, frames);
    lemma_index_at(frames, i);
    lemma_frame_within(header, frames, i, idx);
}

/// A frame that was recorded where its chunk stands in the sink is found there again
/// through its index entry, whatever else was written to the sink before or after it:
/// a write that failed halfway, and was not recorded, leads no later entry astray.
pub proof fn entry_leads_to_frame(sink: Seq<u8>, r: Recording, jpeg: Seq<u8>, at: int)
    requires
        r.start + MOVI_POS <= at < r.start + MOVI_POS + 0x1_0000_0000,
        jpeg.len() < 0x1_0000_0000,
        at + frame_chunk(jpeg).len() <= sink.len(),
        sink.subrange(at, at + frame_chunk(jpeg).len()) == frame_chunk(jpeg),
    ensures
        ({
            let entry = with_frame(r, jpeg.len() as int, at).entries.last();
            &&& entry.1 == jpeg.len()
            &&& frame_at(sink, r.start + MOVI_POS + entry.0, jpeg)
        }),
        with_frame(r, jpeg.len() as int, at).entries.drop_last() == r.entries,
{
    let n = at + frame_chunk(jpeg).len();
    let (pre, post) = (sink.take(at), sink.skip(n));
    let c = frame_chunk(jpeg);
    assert forall|j: int| 0 <= j < sink.len() implies sink[j] == (pre + c + post)[j] by {
        if at <= j < n {
            assert(sink.subrange(at, n)[j - at] == c[j - at]);
        }
    }
    assert(sink =~= pre + c + post);
    lemma_frame_in(pre, jpeg, post);
    assert(with_frame(r, jpeg.len() as int, at).entries.drop_last() =~= r.entries);
}

proof fn lemma_main_front_words(f: Format)
    ensures
        main_front(f).len() == 24,
        main_front(f).subrange(4, 8) == bytes::le32(56),
        main_front(f).subrange(8, 12) == bytes::le32(1_000_000int / f.fps),
        main_front(f).subrange(12, 16) == bytes::le32(0),
        main_front(f).subrange(16, 20) == bytes::le32(0),
        main_front(f).subrange(20, 24) == bytes::le32(0x10),
        main_front(f).subrange(0, 4) == seq![0x61u8, 0x76u8, 0x69u8, 0x68u8],
{
    reveal(main_front);
    assert(main_front(f).subrange(4, 8) =~= bytes::le32(56));
    assert(main_front(f).subrange(8, 12) =~= bytes::le32(1_000_000int / f.fps));
    assert(main_front(f).subrange(12, 16) =~= bytes::le32(0));
    assert(main_front(f).subrange(16, 20) =~= bytes::le32(0));
    assert(main_front(f).subrange(20, 24) =~= bytes::le32(0x10));
    assert(main_front(f).subrange(0, 4) =~= seq![0x61u8, 0x76u8, 0x69u8, 0x68u8]);
}

proof fn lemma_main_back_words(f: Format)
    ensures
        main_back(f).len() == 36,
        main_back(f).subrange(0, 4) == bytes::le32(0),
        main_back(f).subrange(4, 8) == bytes::le32(1),
        main_back(f).subrange(8, 12) == bytes::le32(0),
        main_back(f).subrange(12, 16) == bytes::le32(f.width),
        main_back(f).subrange(16, 20) == bytes::le32(f.height),
        main_back(f).subrange(20, 24) == bytes::le32(0),
        main_back(f).subrange(24, 28) == bytes::le32(0),
        main_back(f).subrange(28, 32) == bytes::le32(0),
        main_back(f).subrange(32, 36) == bytes::le32(0),
{
    reveal(main_back);
    assert(main_back(f).subrange(0, 4) =~= bytes::le32(0));
    assert(main_back(f).subrange(4, 8) =~= bytes::le32(1));
    assert(main_back(f).subrange(8, 12) =~= bytes::le32(0));
    assert(main_back(f).subrange(12, 16) =~= bytes::le32(f.width));
    assert(main_back(f).subrange(16, 20) =~= bytes::le32(f.height));
    assert(main_back(f).subrange(20, 24) =~= bytes::le32(0));
    assert(main_back(f).subrange(24, 28) =~= bytes::le32(0));
    assert(main_back(f).subrange(28, 32) =~= bytes::le32(0));
    assert(main_back(f).subrange(32, 36) =~= bytes::le32(0));
}

proof fn lemma_stream_front_words(f: Format)
    ensures
        stream_front(f).len() == 40,
        stream_front(f).subrange(4, 8) == bytes::le32(56),
        stream_front(f).subrange(16, 20) == bytes::le32(0),
        stream_front(f).subrange(20, 24) == bytes::le32(0),
        stream_front(f).subrange(24, 28) == bytes::le32(0),
        stream_front(f).subrange(28, 32) == bytes::le32(1),
        stream_front(f).subrange(32, 36) == bytes::le32(f.fps),
        stream_front(f).subrange(36, 40) == bytes::le32(0),
        stream_front(f).subrange(0, 4) == seq![0x73u8, 0x74u8, 0x72u8, 0x68u8],
        stream_front(f).subrange(8, 12) == seq![0x76u8, 0x69u8, 0x64u8, 0x73u8],
        stream_front(f).subrange(12, 16) == seq![0x4Du8, 0x4Au8, 0x50u8, 0x47u8],
{
    reveal(stream_front);
    assert(stream_front(f).subrange(4, 8) =~= bytes::le32(56));
    assert(stream_front(f).subrange(16, 20) =~= bytes::le32(0));
    assert(stream_front(f).subrange(20, 24) =~= bytes::le32(0));
    assert(stream_front(f).subrange(24, 28) =~= bytes::le32(0));
    assert(stream_front(f).subrange(28, 32) =~= bytes::le32(1));
    assert(stream_front(f).subrange(32, 36) =~= bytes::le32(f.fps));
    assert(stream_front(f).subrange(36, 40) =~= bytes::le32(0));
    assert(stream_front(f).subrange(0, 4) =~= seq![0x73u8, 0x74u8, 0x72u8, 0x68u8]);
    assert(stream_front(f).subrange(8, 12) =~= seq![0x76u8, 0x69u8, 0x64u8, 0x73u8]);
    assert(stream_front(f).subrange(12, 16) =~= seq![0x4Du8, 0x4Au8, 0x50u8, 0x47u8]);
}

proof fn lemma_stream_back_words(f: Format)
    ensures
        stream_back(f).len() == 20,
        stream_back(f).subrange(0, 4) == bytes::le32(0),
        stream_back(f).subrange(4, 8) == bytes::le32(0xFFFF_FFFF),
        stream_back(f).subrange(8, 12) == bytes::le32(0),
        stream_back(f).subrange(12, 16) == bytes::le32(0),
        stream_back(f).subrange(16, 18) == bytes::le16(f.width),
        stream_back(f).subrange(18, 20) == bytes::le16(f.height),
{
    reveal(stream_back);
    assert(stream_back(f).subrange(0, 4) =~= bytes::le32(0));
    assert(stream_back(f).subrange(4, 8) =~= bytes::le32(0xFFFF_FFFF));
    assert(stream_back(f).subrange(8, 12) =~= bytes::le32(0));
    assert(stream_back(f).subrange(12, 16) =~= bytes::le32(0));
    assert(stream_back(f).subrange(16, 18) =~= bytes::le16(f.width));
    assert(stream_back(f).subrange(18, 20) =~= bytes::le16(f.height));
}

proof fn lemma_format_chunk_words(f: Format)
    ensures
        format_chunk(f).len() == 48,
        format_chunk(f).subrange(4, 8) == bytes::le32(40),
        format_chunk(f).subrange(8, 12) == bytes::le32(40),
        format_chunk(f).subrange(12, 16) == bytes::le32(f.width),
        format_chunk(f).subrange(16, 20) == bytes::le32(f.height),
        format_chunk(f).subrange(28, 32) == bytes::le32(image_size(f)),
        format_chunk(f).subrange(32, 36) == bytes::le32(0),
        format_chunk(f).subrange(36, 40) == bytes::le32(0),
        format_chunk(f).subrange(40, 44) == bytes::le32(0),
        format_chunk(f).subrange(44, 48) == bytes::le32(0),
        format_chunk(f).subrange(0, 4) == seq![0x73u8, 0x74u8, 0x72u8, 0x66u8],
        format_chunk(f).subrange(24, 28) == seq![0x4Du8, 0x4Au8, 0x50u8, 0x47u8],
        format_chunk(f).subrange(20, 22) == bytes::le16(1),
        format_chunk(f).subrange(22, 24) == bytes::le16(24),
{
    reveal(format_chunk);
    assert(stream_format(f).len() == 40);
    assert(format_chunk(f).subrange(4, 8) =~= bytes::le32(40));
    assert(format_chunk(f).subrange(8, 12) =~= bytes::le32(40));
    assert(format_chunk(f).subrange(12, 16) =~= bytes::le32(f.width));
    assert(format_chunk(f).subrange(16, 20) =~= bytes::le32(f.height));
    assert(format_chunk(f).subrange(28, 32) =~= bytes::le32(image_size(f)));
    assert(format_chunk(f).subrange(32, 36) =~= bytes::le32(0));
    assert(format_chunk(f).subrange(36, 40) =~= bytes::le32(0));
    assert(format_chunk(f).subrange(40, 44) =~= bytes::le32(0));
    assert(format_chunk(f).subrange(44, 48) =~= bytes::le32(0));
    assert(format_chunk(f).subrange(0, 4) =~= seq![0x73u8, 0x74u8, 0x72u8, 0x66u8]);
    assert(format_chunk(f).subrange(24, 28) =~= seq![0x4Du8, 0x4Au8, 0x50u8, 0x47u8]);
    assert(format_chunk(f).subrange(20, 22) =~= bytes::le16(1));
    assert(format_chunk(f).subrange(22, 24) =~= bytes::le16(24));
}

// Bytes of the middle one of three sequences.
proof fn lemma_inside(a: Seq<u8>, m: Seq<u8>, b: Seq<u8>, k: int, n: int)
    requires
        0 <= k <= k + n <= m.len(),
    ensures
        (a + m + b).subrange(a.len() + k, a.len() + k + n) == m.subrange(k, k + n),
{
    assert((a + m + b).subrange(a.len() + k, a.len() + k + n) =~= m.subrange(k, k + n));
}

// A part of the header: `part` stands at `at` in every file that starts with the header.
spec fn stands_at(file: Seq<u8>, at: int, part: Seq<u8>) -> bool {
    exists|a: Seq<u8>, b: Seq<u8>| file == #[trigger] (a + part + b) && a.len() == at
}

proof fn lemma_stands(a: Seq<u8>, part: Seq<u8>, b: Seq<u8>)
    ensures
        stands_at(a + part + b, a.len() as int, part),
{
    assert(a + part + b == (a + part + b));
}

// What stands in a part stands in the whole.
proof fn lemma_nested(file: Seq<u8>, at: int, outer: Seq<u8>, k: int, inner: Seq<u8>)
    requires
        stands_at(file, at, outer),
        stands_at(outer, k, inner),
    ensures
        stands_at(file, at + k, inner),
{
    let (a, b) = choose|a: Seq<u8>, b: Seq<u8>| file == #[trigger] (a + outer + b) && a.len() == at;
    let (c, e) = choose|c: Seq<u8>, e: Seq<u8>| outer == #[trigger] (c + inner + e) && c.len() == k;
    assert(file =~= (a + c) + inner + (e + b));
    lemma_stands(a + c, inner, e + b);
}

proof fn lemma_word_at(file: Seq<u8>, at: int, part: Seq<u8>, k: int, v: int)
    requires
        stands_at(file, at, part),
        0 <= k <= k + 4 <= part.len(),
        part.subrange(k, k + 4) == bytes::le32(v),
        v >= 0,
    ensures
        bytes::read32(file, at + k) == v % 0x1_0000_0000,
{
    let (a, b) = choose|a: Seq<u8>, b: Seq<u8>| file == #[trigger] (a + part + b) && a.len() == at;
    lemma_inside(a, part, b, k, 4);
    let w = file.subrange(at + k, at + k + 4);
    let none = Seq::<u8>::empty();
    bytes::le32_reads_back(v, none, none);
    assert(none + bytes::le32(v) + none =~= w);
    assert(w[0] == file[at + k] && w[1] == file[at + k + 1] && w[2] == file[at + k + 2] && w[3]
        == file[at + k + 3]);
}

proof fn lemma_bytes_at(file: Seq<u8>, at: int, part: Seq<u8>, k: int, n: int)
    requires
        stands_at(file, at, part),
        0 <= k <= k + n <= part.len(),
    ensures
        file.subrange(at + k, at + k + n) == part.subrange(k, k + n),
        at + part.len() <= file.len(),
        0 <= at,
{
    let (a, b) = choose|a: Seq<u8>, b: Seq<u8>| file == #[trigger] (a + part + b) && a.len() == at;
    lemma_inside(a, part, b, k, n);
}

// Where the parts of the header stand in every file that starts with it.
proof fn lemma_parts_stand(
    f: Format,
    riff: int,
    frames: int,
    length: int,
    movi: int,
    rest: Seq<u8>,
)
    ensures
        ({
            let file = file_header(f, riff, frames, length, movi) + rest;
            &&& stands_at(file, 0, RIFF@)
            &&& stands_at(file, 8, AVI@)
            &&& stands_at(file, 12, list_front(HDRL@, 192))
            &&& stands_at(file, 24, main_front(f))
            &&& stands_at(file, 52, main_back(f))
            &&& stands_at(file, 88, list_front(STRL@, 116))
            &&& stands_at(file, 100, stream_front(f))
            &&& stands_at(file, 144, stream_back(f))
            &&& stands_at(file, 164, format_chunk(f))
            &&& stands_at(file, 212, LIST@)
            &&& stands_at(file, 220, MOVI@)
        }),
{
    let header = file_header(f, riff, frames, length, movi);
    let file = header + rest;
    let none = Seq::<u8>::empty();
    lemma_header_cut(f, riff, frames, length, movi);
    lemma_main_header(f, frames);
    lemma_stream_header(f, length);
    lemma_format_chunk(f);
    assert(list_front(HDRL@, 192).len() == 12 && list_front(STRL@, 116).len() == 12) by {
        reveal(list_front);
    }
    lemma_stands(none, header, rest);
    assert(none + header + rest =~= file);
    let (u1, u2, u3) = (upto_frames(f), upto_length(f), upto_movi(f));
    let (wr, wf, wl, wm) = (
        bytes::le32(riff),
        bytes::le32(frames),
        bytes::le32(length),
        bytes::le32(movi),
    );
    // the header around each piece
    lemma_header_around(f, riff, frames, length, movi, 0);
    lemma_header_around(f, riff, frames, length, movi, 1);
    lemma_header_around(f, riff, frames, length, movi, 2);
    lemma_header_around(f, riff, frames, length, movi, 3);
    let b1 = RIFF@ + wr;
    let a1 = after_patch(f, frames, length, movi, 1);
    lemma_assoc(b1 + u1, wf, a1);
    lemma_stands(b1, u1, wf + a1);
    let b2 = RIFF@ + wr + u1 + wf;
    let a2 = after_patch(f, frames, length, movi, 2);
    lemma_assoc(b2 + u2, wl, a2);
    lemma_stands(b2, u2, wl + a2);
    let b3 = RIFF@ + wr + u1 + wf + u2 + wl;
    lemma_assoc(b3 + u3, wm, MOVI@);
    lemma_stands(b3, u3, wm + MOVI@);
    let a0 = after_patch(f, frames, length, movi, 3);
    lemma_assoc(RIFF@, wr, a0);
    lemma_stands(none, RIFF@, wr + a0);
    assert(none + RIFF@ + (wr + a0) =~= header);
    lemma_stands(b3 + u3 + wm, MOVI@, none);
    assert(b3 + u3 + wm + MOVI@ + none =~= header);
    lemma_nested(file, 0, header, 0, RIFF@);
    lemma_nested(file, 0, header, 220, MOVI@);
    lemma_nested(file, 0, header, 8, u1);
    lemma_nested(file, 0, header, 52, u2);
    lemma_nested(file, 0, header, 144, u3);
    // the parts of each piece
    reveal(upto_frames);
    reveal(upto_length);
    reveal(upto_movi);
    let (lh, mf) = (list_front(HDRL@, 192), main_front(f));
    lemma_stands(none, AVI@, lh + mf);
    assert(none + AVI@ + (lh + mf) =~= u1);
    lemma_stands(AVI@, lh, mf);
    lemma_stands(AVI@ + lh, mf, none);
    assert(AVI@ + lh + mf =~= u1);
    assert(AVI@ + lh + mf + none =~= u1);
    lemma_nested(file, 8, u1, 0, AVI@);
    lemma_nested(file, 8, u1, 4, lh);
    lemma_nested(file, 8, u1, 16, mf);
    let (mb, ls, sf) = (main_back(f), list_front(STRL@, 116), stream_front(f));
    lemma_stands(none, mb, ls + sf);
    assert(none + mb + (ls + sf) =~= u2);
    lemma_stands(mb, ls, sf);
    lemma_stands(mb + ls, sf, none);
    assert(mb + ls + sf =~= u2);
    assert(mb + ls + sf + none =~= u2);
    lemma_nested(file, 52, u2, 0, mb);
    lemma_nested(file, 52, u2, 36, ls);
    lemma_nested(file, 52, u2, 48, sf);
    let (sb, fc) = (stream_back(f), format_chunk(f));
    lemma_stands(none, sb, fc + LIST@);
    assert(none + sb + (fc + LIST@) =~= u3);
    lemma_stands(sb, fc, LIST@);
    lemma_stands(sb + fc, LIST@, none);
    assert(sb + fc + LIST@ + none =~= u3);
    lemma_nested(file, 144, u3, 0, sb);
    lemma_nested(file, 144, u3, 20, fc);
    lemma_nested(file, 144, u3, 68, LIST@);
}

proof fn lemma_list_front_words(kind: Seq<u8>, size: int)
    requires
        kind.len() == 4,
    ensures
        list_front(kind, size).len() == 12,
        list_front(kind, size).subrange(0, 4) == seq![0x4Cu8, 0x49u8, 0x53u8, 0x54u8],
        list_front(kind, size).subrange(4, 8) == bytes::le32(size),
        list_front(kind, size).subrange(8, 12) == kind,
{
    reveal(list_front);
    assert(list_front(kind, size).subrange(0, 4) =~= seq![0x4Cu8, 0x49u8, 0x53u8, 0x54u8]);
    assert(list_front(kind, size).subrange(4, 8) =~= bytes::le32(size));
    assert(list_front(kind, size).subrange(8, 12) =~= kind);
}

proof fn lemma_read_hdrl(file: Seq<u8>, f: Format)
    requires
        stands_at(file, 12, list_front(HDRL@, 192)),
        f.fps >= 1,
        0 <= f.width,
        0 <= f.height,
        0 <= image_size(f),
        0 <= 1_000_000int / f.fps,
    ensures
        bytes::read32(file, 16) == 192,
        file.subrange(12, 16) == seq![0x4Cu8, 0x49u8, 0x53u8, 0x54u8],
        file.subrange(20, 24) == seq![0x68u8, 0x64u8, 0x72u8, 0x6Cu8],
{
    assert(bytes::read32(file, 16) == (192int) % 0x1_0000_0000) by {
        lemma_list_front_words(HDRL@, 192);
        lemma_word_at(file, 12, list_front(HDRL@, 192), 4, 192);
    }
    assert(file.subrange(12, 16) == seq![0x4Cu8, 0x49u8, 0x53u8, 0x54u8]) by {
        lemma_list_front_words(HDRL@, 192);
        lemma_bytes_at(file, 12, list_front(HDRL@, 192), 0, 4);
    }
    assert(file.subrange(20, 24) == seq![0x68u8, 0x64u8, 0x72u8, 0x6Cu8]) by {
        lemma_list_front_words(HDRL@, 192);
        lemma_bytes_at(file, 12, list_front(HDRL@, 192), 8, 4);
        assert(HDRL@ =~= seq![0x68u8, 0x64u8, 0x72u8, 0x6Cu8]);
    }
}

proof fn lemma_read_main_front(file: Seq<u8>, f: Format)
    requires
        stands_at(file, 24, main_front(f)),
        f.fps >= 1,
        0 <= f.width,
        0 <= f.height,
        0 <= image_size(f),
        0 <= 1_000_000int / f.fps,
    ensures
        bytes::read32(file, 28) == 56,
        bytes::read32(file, 32) == (1_000_000int / f.fps) % 0x1_0000_0000,
        bytes::read32(file, 36) == 0,
        bytes::read32(file, 40) == 0,
        bytes::read32(file, 44) == 0x10,
        file.subrange(24, 28) == seq![0x61u8, 0x76u8, 0x69u8, 0x68u8],
{
    assert(bytes::read32(file, 28) == (56int) % 0x1_0000_0000) by {
        lemma_main_front_words(f);
        lemma_word_at(file, 24, main_front(f), 4, 56);
    }
    assert(bytes::read32(file, 32) == (1_000_000int / f.fps) % 0x1_0000_0000) by {
        lemma_main_front_words(f);
        lemma_word_at(file, 24, main_front(f), 8, 1_000_000int / f.fps);
    }
    assert(bytes::read32(file, 36) == (0int) % 0x1_0000_0000) by {
        lemma_main_front_words(f);
        lemma_word_at(file, 24, main_front(f), 12, 0);
    }
    assert(bytes::read32(file, 40) == (0int) % 0x1_0000_0000) by {
        lemma_main_front_words(f);
        lemma_word_at(file, 24, main_front(f), 16, 0);
    }
    assert(bytes::read32(file, 44) == (0x10int) % 0x1_0000_0000) by {
        lemma_main_front_words(f);
        lemma_word_at(file, 24, main_front(f), 20, 0x10);
    }
    assert(file.subrange(24, 28) == seq![0x61u8, 0x76u8, 0x69u8, 0x68u8]) by {
        lemma_main_front_words(f);
        lemma_bytes_at(file, 24, main_front(f), 0, 4);
    }
}

proof fn lemma_read_main_back(file: Seq<u8>, f: Format)
    requires
        stands_at(file, 52, main_back(f)),
        f.fps >= 1,
        0 <= f.width,
        0 <= f.height,
        0 <= image_size(f),
        0 <= 1_000_000int / f.fps,
    ensures
        bytes::read32(file, 52) == 0,
        bytes::read32(file, 56) == 1,
        bytes::read32(file, 60) == 0,
        bytes::read32(file, 64) == (f.width) % 0x1_0000_0000,
        bytes::read32(file, 68) == (f.height) % 0x1_0000_0000,
        bytes::read32(file, 72) == 0,
        bytes::read32(file, 76) == 0,
        bytes::read32(file, 80) == 0,
        bytes::read32(file, 84) == 0,
{
    assert(bytes::read32(file, 52) == (0int) % 0x1_0000_0000) by {
        lemma_main_back_words(f);
        lemma_word_at(file, 52, main_back(f), 0, 0);
    }
    assert(bytes::read32(file, 56) == (1int) % 0x1_0000_0000) by {
        lemma_main_back_words(f);
        lemma_word_at(file, 52, main_back(f), 4, 1);
    }
    assert(bytes::read32(file, 60) == (0int) % 0x1_0000_0000) by {
        lemma_main_back_words(f);
        lemma_word_at(file, 52, main_back(f), 8, 0);
    }
    assert(bytes::read32(file, 64) == (f.width) % 0x1_0000_0000) by {
        lemma_main_back_words(f);
        lemma_word_at(file, 52, main_back(f), 12, f.width);
    }
    assert(bytes::read32(file, 68) == (f.height) % 0x1_0000_0000) by {
        lemma_main_back_words(f);
        lemma_word_at(file, 52, main_back(f), 16, f.height);
    }
    assert(bytes::read32(file, 72) == (0int) % 0x1_0000_0000) by {
        lemma_main_back_words(f);
        lemma_word_at(file, 52, main_back(f), 20, 0);
    }
    assert(bytes::read32(file, 76) == (0int) % 0x1_0000_0000) by {
        lemma_main_back_words(f);
        lemma_word_at(file, 52, main_back(f), 24, 0);
    }
    assert(bytes::read32(file, 80) == (0int) % 0x1_0000_0000) by {
        lemma_main_back_words(f);
        lemma_word_at(file, 52, main_back(f), 28, 0);
    }
    assert(bytes::read32(file, 84) == (0int) % 0x1_0000_0000) by {
        lemma_main_back_words(f);
        lemma_word_at(file, 52, main_back(f), 32, 0);
    }
}

proof fn lemma_read_strl(file: Seq<u8>, f: Format)
    requires
        stands_at(file, 88, list_front(STRL@, 116)),
        f.fps >= 1,
        0 <= f.width,
        0 <= f.height,
        0 <= image_size(f),
        0 <= 1_000_000int / f.fps,
    ensures
        bytes::read32(file, 92) == 116,
        file.subrange(88, 92) == seq![0x4Cu8, 0x49u8, 0x53u8, 0x54u8],
        file.subrange(96, 100) == seq![0x73u8, 0x74u8, 0x72u8, 0x6Cu8],
{
    assert(bytes::read32(file, 92) == (116int) % 0x1_0000_0000) by {
        lemma_list_front_words(STRL@, 116);
        lemma_word_at(file, 88, list_front(STRL@, 116), 4, 116);
    }
    assert(file.subrange(88, 92) == seq![0x4Cu8, 0x49u8, 0x53u8, 0x54u8]) by {
        lemma_list_front_words(STRL@, 116);
        lemma_bytes_at(file, 88, list_front(STRL@, 116), 0, 4);
    }
    assert(file.subrange(96, 100) == seq![0x73u8, 0x74u8, 0x72u8, 0x6Cu8]) by {
        lemma_list_front_words(STRL@, 116);
        lemma_bytes_at(file, 88, list_front(STRL@, 116), 8, 4);
        assert(STRL@ =~= seq![0x73u8, 0x74u8, 0x72u8, 0x6Cu8]);
    }
}

proof fn lemma_read_stream_front(file: Seq<u8>, f: Format)
    requires
        stands_at(file, 100, stream_front(f)),
        f.fps >= 1,
        0 <= f.width,
        0 <= f.height,
        0 <= image_size(f),
        0 <= 1_000_000int / f.fps,
    ensures
        bytes::read32(file, 104) == 56,
        bytes::read32(file, 116) == 0,
        bytes::read32(file, 120) == 0,
        bytes::read32(file, 124) == 0,
        bytes::read32(file, 128) == 1,
        bytes::read32(file, 132) == (f.fps) % 0x1_0000_0000,
        bytes::read32(file, 136) == 0,
        file.subrange(100, 104) == seq![0x73u8, 0x74u8, 0x72u8, 0x68u8],
        file.subrange(108, 112) == seq![0x76u8, 0x69u8, 0x64u8, 0x73u8],
        file.subrange(112, 116) == seq![0x4Du8, 0x4Au8, 0x50u8, 0x47u8],
{
    assert(bytes::read32(file, 104) == (56int) % 0x1_0000_0000) by {
        lemma_stream_front_words(f);
        lemma_word_at(file, 100, stream_front(f), 4, 56);
    }
    assert(bytes::read32(file, 116) == (0int) % 0x1_0000_0000) by {
        lemma_stream_front_words(f);
        lemma_word_at(file, 100, stream_front(f), 16, 0);
    }
    assert(bytes::read32(file, 120) == (0int) % 0x1_0000_0000) by {
        lemma_stream_front_words(f);
        lemma_word_at(file, 100, stream_front(f), 20, 0);
    }
    assert(bytes::read32(file, 124) == (0int) % 0x1_0000_0000) by {
        lemma_stream_front_words(f);
        lemma_word_at(file, 100, stream_front(f), 24, 0);
    }
    assert(bytes::read32(file, 128) == (1int) % 0x1_0000_0000) by {
        lemma_stream_front_words(f);
        lemma_word_at(file, 100, stream_front(f), 28, 1);
    }
    assert(bytes::read32(file, 132) == (f.fps) % 0x1_0000_0000) by {
        lemma_stream_front_words(f);
        lemma_word_at(file, 100, stream_front(f), 32, f.fps);
    }
    assert(bytes::read32(file, 136) == (0int) % 0x1_0000_0000) by {
        lemma_stream_front_words(f);
        lemma_word_at(file, 100, stream_front(f), 36, 0);
    }
    assert(file.subrange(100, 104) == seq![0x73u8, 0x74u8, 0x72u8, 0x68u8]) by {
        lemma_stream_front_words(f);
        lemma_bytes_at(file, 100, stream_front(f), 0, 4);
    }
    assert(file.subrange(108, 112) == seq![0x76u8, 0x69u8, 0x64u8, 0x73u8]) by {
        lemma_stream_front_words(f);
        lemma_bytes_at(file, 100, stream_front(f), 8, 4);
    }
    assert(file.subrange(112, 116) == seq![0x4Du8, 0x4Au8, 0x50u8, 0x47u8]) by {
        lemma_stream_front_words(f);
        lemma_bytes_at(file, 100, stream_front(f), 12, 4);
    }
}

proof fn lemma_read_stream_back(file: Seq<u8>, f: Format)
    requires
        stands_at(file, 144, stream_back(f)),
        f.fps >= 1,
        0 <= f.width,
        0 <= f.height,
        0 <= image_size(f),
        0 <= 1_000_000int / f.fps,
    ensures
        bytes::read32(file, 144) == 0,
        bytes::read32(file, 148) == 0xFFFF_FFFF,
        bytes::read32(file, 152) == 0,
        bytes::read32(file, 156) == 0,
        file.subrange(160, 162) == bytes::le16(f.width),
        file.subrange(162, 164) == bytes::le16(f.height),
{
    assert(bytes::read32(file, 144) == (0int) % 0x1_0000_0000) by {
        lemma_stream_back_words(f);
        lemma_word_at(file, 144, stream_back(f), 0, 0);
    }
    assert(bytes::read32(file, 148) == (0xFFFF_FFFFint) % 0x1_0000_0000) by {
        lemma_stream_back_words(f);
        lemma_word_at(file, 144, stream_back(f), 4, 0xFFFF_FFFF);
    }
    assert(bytes::read32(file, 152) == (0int) % 0x1_0000_0000) by {
        lemma_stream_back_words(f);
        lemma_word_at(file, 144, stream_back(f), 8, 0);
    }
    assert(bytes::read32(file, 156) == (0int) % 0x1_0000_0000) by {
        lemma_stream_back_words(f);
        lemma_word_at(file, 144, stream_back(f), 12, 0);
    }
    assert(file.subrange(160, 162) == bytes::le16(f.width)) by {
        lemma_stream_back_words(f);
        lemma_bytes_at(file, 144, stream_back(f), 16, 2);
    }
    assert(file.subrange(162, 164) == bytes::le16(f.height)) by {
        lemma_stream_back_words(f);
        lemma_bytes_at(file, 144, stream_back(f), 18, 2);
    }
}

proof fn lemma_read_format_chunk(file: Seq<u8>, f: Format)
    requires
        stands_at(file, 164, format_chunk(f)),
        f.fps >= 1,
        0 <= f.width,
        0 <= f.height,
        0 <= image_size(f),
        0 <= 1_000_000int / f.fps,
    ensures
        bytes::read32(file, 168) == 40,
        bytes::read32(file, 172) == 40,
        bytes::read32(file, 176) == (f.width) % 0x1_0000_0000,
        bytes::read32(file, 180) == (f.height) % 0x1_0000_0000,
        bytes::read32(file, 192) == (image_size(f)) % 0x1_0000_0000,
        bytes::read32(file, 196) == 0,
        bytes::read32(file, 200) == 0,
        bytes::read32(file, 204) == 0,
        bytes::read32(file, 208) == 0,
        file.subrange(164, 168) == seq![0x73u8, 0x74u8, 0x72u8, 0x66u8],
        file.subrange(188, 192) == seq![0x4Du8, 0x4Au8, 0x50u8, 0x47u8],
        file.subrange(184, 186) == bytes::le16(1),
        file.subrange(186, 188) == bytes::le16(24),
{
    assert(bytes::read32(file, 168) == (40int) % 0x1_0000_0000) by {
        lemma_format_chunk_words(f);
        lemma_word_at(file, 164, format_chunk(f), 4, 40);
    }
    assert(bytes::read32(file, 172) == (40int) % 0x1_0000_0000) by {
        lemma_format_chunk_words(f);
        lemma_word_at(file, 164, format_chunk(f), 8, 40);
    }
    assert(bytes::read32(file, 176) == (f.width) % 0x1_0000_0000) by {
        lemma_format_chunk_words(f);
        lemma_word_at(file, 164, format_chunk(f), 12, f.width);
    }
    assert(bytes::read32(file, 180) == (f.height) % 0x1_0000_0000) by {
        lemma_format_chunk_words(f);
        lemma_word_at(file, 164, format_chunk(f), 16, f.height);
    }
    assert(bytes::read32(file, 192) == (image_size(f)) % 0x1_0000_0000) by {
        lemma_format_chunk_words(f);
        lemma_word_at(file, 164, format_chunk(f), 28, image_size(f));
    }
    assert(bytes::read32(file, 196) == (0int) % 0x1_0000_0000) by {
        lemma_format_chunk_words(f);
        lemma_word_at(file, 164, format_chunk(f), 32, 0);
    }
    assert(bytes::read32(file, 200) == (0int) % 0x1_0000_0000) by {
        lemma_format_chunk_words(f);
        lemma_word_at(file, 164, format_chunk(f), 36, 0);
    }
    assert(bytes::read32(file, 204) == (0int) % 0x1_0000_0000) by {
        lemma_format_chunk_words(f);
        lemma_word_at(file, 164, format_chunk(f), 40, 0);
    }
    assert(bytes::read32(file, 208) == (0int) % 0x1_0000_0000) by {
        lemma_format_chunk_words(f);
        lemma_word_at(file, 164, format_chunk(f), 44, 0);
    }
    assert(file.subrange(164, 168) == seq![0x73u8, 0x74u8, 0x72u8, 0x66u8]) by {
        lemma_format_chunk_words(f);
        lemma_bytes_at(file, 164, format_chunk(f), 0, 4);
    }
    assert(file.subrange(188, 192) == seq![0x4Du8, 0x4Au8, 0x50u8, 0x47u8]) by {
        lemma_format_chunk_words(f);
        lemma_bytes_at(file, 164, format_chunk(f), 24, 4);
    }
    assert(file.subrange(184, 186) == bytes::le16(1)) by {
        lemma_format_chunk_words(f);
        lemma_bytes_at(file, 164, format_chunk(f), 20, 2);
    }
    assert(file.subrange(186, 188) == bytes::le16(24)) by {
        lemma_format_chunk_words(f);
        lemma_bytes_at(file, 164, format_chunk(f), 22, 2);
    }
}

proof fn lemma_read_code(file: Seq<u8>, at: int, code: Seq<u8>)
    requires
        stands_at(file, at, code),
        code.len() == 4,
    ensures
        file.subrange(at, at + 4) == code,
{
    lemma_bytes_at(file, at, code, 0, 4);
    assert(code.subrange(0, 4) =~= code);
}

proof fn lemma_format_numbers(width: u32, height: u32, fps: u32)
    ensures
        ({
            let f = format(width, height, fps);
            &&& f.fps >= 1
            &&& 0 <= f.width
            &&& 0 <= f.height
            &&& 0 <= width * height
            &&& 0 <= image_size(f) <= u32::MAX
            &&& 0 <= 1_000_000int / f.fps <= 1_000_000
        }),
{
    let f = format(width, height, fps);
    assert(0 <= width * height) by (nonlinear_arith);
    assert(0 <= 1_000_000int / f.fps <= 1_000_000) by (nonlinear_arith)
        requires
            f.fps >= 1,
    ;
}

/// What a reader finds first in every file that starts with the header: the codes of a
/// RIFF file of AVI kind, and the header list with its size.
pub proof fn file_starts_as_avi(
    width: u32,
    height: u32,
    fps: u32,
    riff: int,
    frames: int,
    length: int,
    movi: int,
    rest: Seq<u8>,
)
    ensures
        ({
            let file = file_header(format(width, height, fps), riff, frames, length, movi) + rest;
            &&& file.subrange(0, 4) == seq![0x52u8, 0x49u8, 0x46u8, 0x46u8]
            &&& file.subrange(8, 12) == seq![0x41u8, 0x56u8, 0x49u8, 0x20u8]
            &&& file.subrange(12, 16) == seq![0x4Cu8, 0x49u8, 0x53u8, 0x54u8]
            &&& file.subrange(20, 24) == seq![0x68u8, 0x64u8, 0x72u8, 0x6Cu8]
            &&& bytes::read32(file, 16) == 192
        }),
{
    let f = format(width, height, fps);
    let file = file_header(f, riff, frames, length, movi) + rest;
    lemma_parts_stand(f, riff, frames, length, movi, rest);
    lemma_format_numbers(width, height, fps);
    lemma_read_hdrl(file, f);
    lemma_read_code(file, 0, RIFF@);
    assert(RIFF@ =~= seq![0x52u8, 0x49u8, 0x46u8, 0x46u8]);
    lemma_read_code(file, 8, AVI@);
    assert(AVI@ =~= seq![0x41u8, 0x56u8, 0x49u8, 0x20u8]);
}

/// What a reader finds in the main header: the microseconds between two frames, the flag
/// for an index, one stream, and width and height as the recording was begun with. A rate
/// of zero counts as one.
pub proof fn main_header_tells_format(
    width: u32,
    height: u32,
    fps: u32,
    riff: int,
    frames: int,
    length: int,
    movi: int,
    rest: Seq<u8>,
)
    ensures
        ({
            let file = file_header(format(width, height, fps), riff, frames, length, movi) + rest;
            let rate = if fps == 0 {
                1
            } else {
                fps as int
            };
            &&& file.subrange(24, 28) == seq![0x61u8, 0x76u8, 0x69u8, 0x68u8]
            &&& bytes::read32(file, 28) == 56
            &&& bytes::read32(file, 32) == 1_000_000int / rate
            &&& bytes::read32(file, 36) == 0
            &&& bytes::read32(file, 40) == 0
            &&& bytes::read32(file, 44) == 0x10
            &&& bytes::read32(file, 52) == 0
            &&& bytes::read32(file, 56) == 1
            &&& bytes::read32(file, 60) == 0
            &&& bytes::read32(file, 64) == width
            &&& bytes::read32(file, 68) == height
            &&& bytes::read32(file, 72) == 0
            &&& bytes::read32(file, 76) == 0
            &&& bytes::read32(file, 80) == 0
            &&& bytes::read32(file, 84) == 0
        }),
{
    let f = format(width, height, fps);
    let file = file_header(f, riff, frames, length, movi) + rest;
    lemma_parts_stand(f, riff, frames, length, movi, rest);
    lemma_format_numbers(width, height, fps);
    lemma_read_main_front(file, f);
    lemma_read_main_back(file, f);
}

/// What a reader finds in the stream header: Motion-JPEG video at the given rate over one,
/// and the picture's width and height as its rectangle.
pub proof fn stream_header_tells_format(
    width: u32,
    height: u32,
    fps: u32,
    riff: int,
    frames: int,
    length: int,
    movi: int,
    rest: Seq<u8>,
)
    ensures
        ({
            let file = file_header(format(width, height, fps), riff, frames, length, movi) + rest;
            let rate = if fps == 0 {
                1
            } else {
                fps as int
            };
            &&& file.subrange(88, 92) == seq![0x4Cu8, 0x49u8, 0x53u8, 0x54u8]
            &&& file.subrange(96, 100) == seq![0x73u8, 0x74u8, 0x72u8, 0x6Cu8]
            &&& file.subrange(100, 104) == seq![0x73u8, 0x74u8, 0x72u8, 0x68u8]
            &&& file.subrange(108, 112) == seq![0x76u8, 0x69u8, 0x64u8, 0x73u8]
            &&& file.subrange(112, 116) == seq![0x4Du8, 0x4Au8, 0x50u8, 0x47u8]
            &&& bytes::read32(file, 92) == 116
            &&& bytes::read32(file, 104) == 56
            &&& bytes::read32(file, 116) == 0
            &&& bytes::read32(file, 120) == 0
            &&& bytes::read32(file, 124) == 0
            &&& bytes::read32(file, 128) == 1
            &&& bytes::read32(file, 132) == rate
            &&& bytes::read32(file, 136) == 0
            &&& bytes::read32(file, 144) == 0
            &&& bytes::read32(file, 148) == 0xFFFF_FFFF
            &&& bytes::read32(file, 152) == 0
            &&& bytes::read32(file, 156) == 0
            &&& file.subrange(160, 162) == bytes::le16(width as int)
            &&& file.subrange(162, 164) == bytes::le16(height as int)
        }),
{
    let f = format(width, height, fps);
    let file = file_header(f, riff, frames, length, movi) + rest;
    lemma_parts_stand(f, riff, frames, length, movi, rest);
    lemma_format_numbers(width, height, fps);
    lemma_read_strl(file, f);
    lemma_read_stream_front(file, f);
    lemma_read_stream_back(file, f);
}

/// What a reader finds in the stream format: a bitmap header with the picture's width and
/// height, in that order, one plane of 24 bits, Motion JPEG, and the size of a decoded
/// picture as far as 32 bits go; then the list of frames.
pub proof fn stream_format_tells_format(
    width: u32,
    height: u32,
    fps: u32,
    riff: int,
    frames: int,
    length: int,
    movi: int,
    rest: Seq<u8>,
)
    ensures
        ({
            let file = file_header(format(width, height, fps), riff, frames, length, movi) + rest;
            let rate = if fps == 0 {
                1
            } else {
                fps as int
            };
            &&& file.subrange(164, 168) == seq![0x73u8, 0x74u8, 0x72u8, 0x66u8]
            &&& file.subrange(188, 192) == seq![0x4Du8, 0x4Au8, 0x50u8, 0x47u8]
            &&& file.subrange(212, 216) == seq![0x4Cu8, 0x49u8, 0x53u8, 0x54u8]
            &&& file.subrange(220, 224) == seq![0x6Du8, 0x6Fu8, 0x76u8, 0x69u8]
            &&& bytes::read32(file, 168) == 40
            &&& bytes::read32(file, 172) == 40
            &&& bytes::read32(file, 176) == width
            &&& bytes::read32(file, 180) == height
            &&& width * height * 3 <= u32::MAX ==> bytes::read32(file, 192) == width * height
                * 3
            &&& width * height * 3 > u32::MAX ==> bytes::read32(file, 192) == u32::MAX
            &&& bytes::read32(file, 196) == 0
            &&& bytes::read32(file, 200) == 0
            &&& bytes::read32(file, 204) == 0
            &&& bytes::read32(file, 208) == 0
            &&& file.subrange(184, 186) == seq![1u8, 0u8]
            &&& file.subrange(186, 188) == seq![24u8, 0u8]
        }),
{
    let f = format(width, height, fps);
    let file = file_header(f, riff, frames, length, movi) + rest;
    lemma_parts_stand(f, riff, frames, length, movi, rest);
    lemma_format_numbers(width, height, fps);
    lemma_read_format_chunk(file, f);
    assert(bytes::le16(1) =~= seq![1u8, 0u8]);
    assert(bytes::le16(24) =~= seq![24u8, 0u8]);
    lemma_read_code(file, 212, LIST@);
    assert(LIST@ =~= seq![0x4Cu8, 0x49u8, 0x53u8, 0x54u8]);
    lemma_read_code(file, 220, MOVI@);
    assert(MOVI@ =~= seq![0x6Du8, 0x6Fu8, 0x76u8, 0x69u8]);
}

/// What a reader finds in a frame's chunk: its code, its size, the JPEG as it is, and a
/// zero where the size is odd, so that the next chunk starts at an even place.
pub proof fn frame_chunk_layout(jpeg: Seq<u8>)
    requires
        jpeg.len() < 0x1_0000_0000,
    ensures
        ({
            let c = frame_chunk(jpeg);
            &&& c.len() % 2 == 0
            &&& 8 + jpeg.len() <= c.len() <= 9 + jpeg.len()
            &&& c.subrange(0, 4) == seq![0x30u8, 0x30u8, 0x64u8, 0x63u8]
            &&& bytes::read32(c, 4) == jpeg.len()
            &&& c.subrange(8, 8 + jpeg.len() as int) == jpeg
            &&& c.len() > 8 + jpeg.len() ==> c.last() == 0
        }),
{
    let c = frame_chunk(jpeg);
    let none = Seq::<u8>::empty();
    lemma_frame_in(none, jpeg, none);
    assert(none + c + none =~= c);
    reveal(frame_at);
    assert(c.subrange(0, 4) =~= seq![0x30u8, 0x30u8, 0x64u8, 0x63u8]);
}

/// What a reader finds in the index: its code, its size, and sixteen bytes for each frame:
/// the code of its chunk, the flag of a key frame, where it stands and how long it is.
pub proof fn index_layout(r: Recording, i: int)
    requires
        0 <= i < r.entries.len(),
        16 * r.entries.len() < 0x1_0000_0000,
    ensures
        ({
            let x = index_chunk(r);
            let at = 8 + 16 * i;
            &&& x.len() == 8 + 16 * r.entries.len()
            &&& x.subrange(0, 4) == seq![0x69u8, 0x64u8, 0x78u8, 0x31u8]
            &&& bytes::read32(x, 4) == 16 * r.entries.len()
            &&& x.subrange(at, at + 4) == seq![0x30u8, 0x30u8, 0x64u8, 0x63u8]
            &&& bytes::read32(x, at + 4) == 0x10
            &&& bytes::read32(x, at + 8) == r.entries[i].0
            &&& bytes::read32(x, at + 12) == r.entries[i].1
        }),
{
    lemma_index_head(r);
    lemma_entry_stands(r.entries, i);
    lemma_nested(
        index_chunk(r),
        8,
        index_entries(r.entries),
        16 * i,
        index_entry(r.entries[i]),
    );
    lemma_read_entry(index_chunk(r), 8 + 16 * i, r.entries[i]);
}

proof fn lemma_index_head(r: Recording)
    requires
        16 * r.entries.len() < 0x1_0000_0000,
    ensures
        index_chunk(r).len() == 8 + 16 * r.entries.len(),
        index_chunk(r).subrange(0, 4) == seq![0x69u8, 0x64u8, 0x78u8, 0x31u8],
        bytes::read32(index_chunk(r), 4) == 16 * r.entries.len(),
        stands_at(index_chunk(r), 8, index_entries(r.entries)),
{
    let (x, all) = (index_chunk(r), index_entries(r.entries));
    let none = Seq::<u8>::empty();
    let size = bytes::le32(all.len() as int);
    lemma_index_len(r.entries);
    assert(stands_at(x, 8, all)) by {
        lemma_stands(IDX1@ + size, all, none);
        assert(IDX1@ + size + all + none =~= x);
    }
    assert(bytes::read32(x, 4) == all.len()) by {
        bytes::le32_reads_back(all.len() as int, IDX1@, all);
    }
    assert(x.subrange(0, 4) =~= IDX1@);
    assert(IDX1@ =~= seq![0x69u8, 0x64u8, 0x78u8, 0x31u8]);
}

proof fn lemma_read_entry(x: Seq<u8>, at: int, entry: (u32, u32))
    requires
        stands_at(x, at, index_entry(entry)),
    ensures
        x.subrange(at, at + 4) == seq![0x30u8, 0x30u8, 0x64u8, 0x63u8],
        bytes::read32(x, at + 4) == 0x10,
        bytes::read32(x, at + 8) == entry.0,
        bytes::read32(x, at + 12) == entry.1,
{
    let e = index_entry(entry);
    assert(x.subrange(at, at + 4) == seq![0x30u8, 0x30u8, 0x64u8, 0x63u8]) by {
        lemma_bytes_at(x, at, e, 0, 4);
        assert(e.subrange(0, 4) =~= seq![0x30u8, 0x30u8, 0x64u8, 0x63u8]);
    }
    assert(bytes::read32(x, at + 4) == 0x10) by {
        assert(e.subrange(4, 8) =~= bytes::le32(0x10));
        lemma_word_at(x, at, e, 4, 0x10);
    }
    assert(bytes::read32(x, at + 8) == entry.0) by {
        assert(e.subrange(8, 12) =~= bytes::le32(entry.0 as int));
        lemma_word_at(x, at, e, 8, entry.0 as int);
    }
    assert(bytes::read32(x, at + 12) == entry.1) by {
        assert(e.subrange(12, 16) =~= bytes::le32(entry.1 as int));
        lemma_word_at(x, at, e, 12, entry.1 as int);
    }
}

proof fn lemma_entry_stands(entries: Seq<(u32, u32)>, i: int)
    requires
        0 <= i < entries.len(),
    ensures
        stands_at(index_entries(entries), 16 * i, index_entry(entries[i])),
    decreases entries.len(),
{
    let front = entries.drop_last();
    let none = Seq::<u8>::empty();
    let (a, e) = (index_entries(front), index_entry(entries.last()));
    lemma_index_len(front);
    if i == entries.len() - 1 {
        lemma_stands(a, e, none);
        assert(a + e + none =~= index_entries(entries));
    } else {
        lemma_entry_stands(front, i);
        assert(front[i] == entries[i]);
        lemma_stands(none, a, e);
        assert(none + a + e =~= index_entries(entries));
        lemma_nested(index_entries(entries), 0, a, 16 * i, index_entry(entries[i]));
    }
}

/// Recording a frame counts it, with its length and with where it stands behind the
/// `movi` code, and adds its chunk to the size of the list; nothing recorded before
/// changes. A recording starts without frames.
pub proof fn recording_a_frame(r: Recording, len: int, at: int, start: nat)
    requires
        0 <= len < 0x1_0000_0000,
        r.start + 220 <= at < r.start + 220 + 0x1_0000_0000,
    ensures
        ({
            let next = with_frame(r, len, at);
            let n = r.entries.len();
            &&& next.entries.len() == n + 1
            &&& next.entries[n as int].0 == at - r.start - 220
            &&& next.entries[n as int].1 == len
            &&& forall|i: int| 0 <= i < n ==> #[trigger] next.entries[i] == r.entries[i]
            &&& next.start == r.start
            &&& next.movi_bytes == r.movi_bytes + 8 + len + len % 2
        }),
        begun(start).entries.len() == 0,
        begun(start).start == start,
        begun(start).movi_bytes == 4,
{
}

/// The patches give the reader the sizes: that of the list of frames, the number of frames
/// twice, and how many bytes follow the first eight of the file.
pub proof fn patches_tell_sizes(r: Recording, at: int)
    requires
        r.start <= at,
        16 * r.entries.len() < 0x1_0000_0000,
        r.movi_bytes < 0x1_0000_0000,
    ensures
        patch_pos(r, 0) == r.start + 216,
        patch_pos(r, 1) == r.start + 48,
        patch_pos(r, 2) == r.start + 140,
        patch_pos(r, 3) == r.start + 4,
        bytes::read32(patch_bytes(r, at, 0), 0) == r.movi_bytes,
        bytes::read32(patch_bytes(r, at, 1), 0) == r.entries.len(),
        bytes::read32(patch_bytes(r, at, 2), 0) == r.entries.len(),
        bytes::read32(patch_bytes(r, at, 3), 0) == (at + 8 + 16 * r.entries.len() - r.start - 8)
            % 0x1_0000_0000,
{
    lemma_index_len(r.entries);
    let e = at - r.start + index_chunk(r).len() - 8;
    assert(index_chunk(r).len() == 8 + 16 * r.entries.len());
    assert(bytes::read32(patch_bytes(r, at, 0), 0) == r.movi_bytes) by {
        lemma_reads_alone(r.movi_bytes as int);
    }
    assert(bytes::read32(patch_bytes(r, at, 1), 0) == r.entries.len() && bytes::read32(
        patch_bytes(r, at, 2),
        0,
    ) == r.entries.len()) by {
        lemma_reads_alone(r.entries.len() as int);
    }
    assert(bytes::read32(patch_bytes(r, at, 3), 0) == e % 0x1_0000_0000) by {
        lemma_reads_alone(e);
    }
}

proof fn lemma_reads_alone(v: int)
    requires
        v >= 0,
    ensures
        bytes::read32(bytes::le32(v), 0) == v % 0x1_0000_0000,
{
    let none = Seq::<u8>::empty();
    bytes::le32_reads_back(v, none, none);
    assert(none + bytes::le32(v) + none =~= bytes::le32(v));
}

/// What still fits: a frame behind the `movi` code, as long as the list's size stays a
/// 32-bit number, and an index behind the start, as long as its size does. The low 32 bits
/// of a number differ from it by a multiple of 2^32.
pub proof fn frames_and_index_fit(r: Recording, len: int, at: int)
    requires
        0 <= len < 0x1_0000_0000,
    ensures
        frame_fits(r, len, at) == (r.movi_bytes + 8 + len + len % 2 <= 0xFFFF_FFFF && at >= r.start
            + 220),
        index_fits(r, at) == (at >= r.start && 16 * r.entries.len() <= 0xFFFF_FFFF && at + 8 + 16
            * r.entries.len() <= 0xFFFF_FFFF_FFFF_FFFF),
        0 <= low(at) < 0x1_0000_0000,
        (at - low(at)) % 0x1_0000_0000 == 0,
{
}

} // verus!
