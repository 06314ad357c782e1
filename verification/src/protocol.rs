//! Toy-drone wire protocol.
//!
//! Control: 8-byte UDP packets to `192.168.4.153:8090`.
//! Video: MJPEG over UDP, one JPEG slice per datagram.

use vstd::prelude::*;
use vstd::slice::slice_subrange;

verus! {

/// Header byte of an active control packet.
pub const HEADER: u8 = 0x66;

/// Footer byte of an active control packet.
pub const FOOTER: u8 = 0x99;

/// Neutral value of roll, pitch and yaw, and of throttle (the drone holds altitude).
pub const CENTER: u8 = 0x80;

// Flag bits (byte 5 of the control packet).
pub const FLAG_TAKEOFF: u8 = 0x01;

pub const FLAG_LAND: u8 = 0x02;

pub const FLAG_EMERGENCY: u8 = 0x04;

pub const FLAG_FLIP: u8 = 0x08;

pub const FLAG_HEADLESS: u8 = 0x10;

pub const FLAG_CALIBRATE: u8 = 0x80;

/// Stick and flag state to send to the drone.
///
/// All axes run over 0..=255 with `CENTER` as neutral. Throttle is centered too:
/// 128 holds altitude, more climbs, less descends.
#[derive(Clone, Copy, Debug, PartialEq, Eq, Structural)]
pub struct ControlState {
    pub roll: u8,
    pub pitch: u8,
    pub throttle: u8,
    pub yaw: u8,
    pub flags: u8,
}

/// The checksum of five payload bytes: their XOR, one more where that XOR is
/// the header or the footer byte.
pub open spec fn checksum_of(roll: u8, pitch: u8, throttle: u8, yaw: u8, flags: u8) -> int {
    let c = roll ^ pitch ^ throttle ^ yaw ^ flags;
    if c == HEADER || c == FOOTER {
        c + 1
    } else {
        c as int
    }
}

/// A framed payload: `head roll pitch throttle yaw flags checksum tail`.
pub open spec fn framed(head: u8, s: ControlState, tail: u8) -> Seq<u8> {
    seq![
        head,
        s.roll,
        s.pitch,
        s.throttle,
        s.yaw,
        s.flags,
        checksum_of(s.roll, s.pitch, s.throttle, s.yaw, s.flags) as u8,
        tail,
    ]
}

/// All axes centered, the given flags.
pub open spec fn hover(flags: u8) -> ControlState {
    ControlState { roll: CENTER, pitch: CENTER, throttle: CENTER, yaw: CENTER, flags }
}

/// The idle packet: centered sticks with the throttle at zero, framed `AA .. 55`.
pub open spec fn idle_packet() -> Seq<u8> {
    framed(0xAA, ControlState { throttle: 0, ..hover(0) }, 0x55)
}

impl ControlState {
    /// The active control packet of this state.
    pub open spec fn packet(self) -> Seq<u8> {
        framed(HEADER, self, FOOTER)
    }

    /// Neutral hover: all axes centered, no flags.
    pub fn neutral() -> (s: Self)
        ensures
            s == hover(0),
    {
        ControlState { roll: CENTER, pitch: CENTER, throttle: CENTER, yaw: CENTER, flags: 0 }
    }

    /// Encodes to the 8-byte wire packet `66 roll pitch throttle yaw flags csum 99`.
    pub fn encode(&self) -> (packet: [u8; 8])
        ensures
            packet@ == self.packet(),
    {
        let csum = checksum(self.roll, self.pitch, self.throttle, self.yaw, self.flags);
        [HEADER, self.roll, self.pitch, self.throttle, self.yaw, self.flags, csum, FOOTER]
    }
}

/// An axis byte after a signed trim: the sum, held inside 0..=255.
pub open spec fn trimmed(value: u8, trim: i8) -> int {
    if value + trim < 0 {
        0
    } else if value + trim > 255 {
        255
    } else {
        value + trim
    }
}

/// Adds a signed trim offset to an axis byte, saturating at 0 and 255.
pub fn apply_trim(value: u8, trim: i8) -> (r: u8)
    ensures
        r == trimmed(value, trim),
{
    let sum: i32 = value as i32 + trim as i32;
    if sum < 0 {
        0
    } else if sum > 255 {
        255
    } else {
        sum as u8
    }
}

/// `current` moved toward `target` by `max_step`, stopping at `target`.
pub open spec fn ramped(current: int, target: int, max_step: int) -> int {
    if target > current {
        if current + max_step < target {
            current + max_step
        } else {
            target
        }
    } else if current - max_step > target {
        current - max_step
    } else {
        target
    }
}

/// Moves `current` toward `target` by at most `max_step` per call. Used to
/// rate-limit throttle so taps are not abrupt.
pub fn ramp_toward(current: u8, target: u8, max_step: u8) -> (r: u8)
    ensures
        r == ramped(current as int, target as int, max_step as int),
{
    if target > current {
        let up = current.saturating_add(max_step);
        if up < target {
            up
        } else {
            target
        }
    } else {
        let down = current.saturating_sub(max_step);
        if down > target {
            down
        } else {
            target
        }
    }
}

/// Checksum: XOR of the five payload bytes, bumped by one if it collides with
/// the header (`0x66`) or the footer (`0x99`).
pub fn checksum(roll: u8, pitch: u8, throttle: u8, yaw: u8, flags: u8) -> (c: u8)
    ensures
        c == checksum_of(roll, pitch, throttle, yaw, flags),
{
    let c = roll ^ pitch ^ throttle ^ yaw ^ flags;
    if c == HEADER || c == FOOTER {
        c + 1
    } else {
        c
    }
}

/// The idle keepalive packet (`0xAA .. 0x55`), sent while not actively commanding.
pub fn idle_keepalive() -> (packet: [u8; 8])
    ensures
        packet@ == idle_packet(),
{
    let csum = checksum(CENTER, CENTER, 0x00, CENTER, 0x00);
    [0xAA, CENTER, CENTER, 0x00, CENTER, 0x00, csum, 0x55]
}

/// `n` steps of the ramp.
pub open spec fn ramped_times(current: int, target: int, max_step: int, n: nat) -> int
    decreases n,
{
    if n == 0 {
        current
    } else {
        ramped(ramped_times(current, target, max_step, (n - 1) as nat), target, max_step)
    }
}

/// How far `a` is from `b`.
pub open spec fn distance(a: int, b: int) -> int {
    if a < b {
        b - a
    } else {
        a - b
    }
}

/// The checksum byte never equals the header or the footer byte.
pub proof fn checksum_avoids_framing(roll: u8, pitch: u8, throttle: u8, yaw: u8, flags: u8)
    ensures
        0 <= checksum_of(roll, pitch, throttle, yaw, flags) <= 255,
        checksum_of(roll, pitch, throttle, yaw, flags) != HEADER,
        checksum_of(roll, pitch, throttle, yaw, flags) != FOOTER,
{
}

/// Two states with the same packet are the same state.
pub proof fn packet_determines_state(a: ControlState, b: ControlState)
    requires
        a.packet() == b.packet(),
    ensures
        a == b,
{
    assert(a.packet()[1] == b.packet()[1]);
    assert(a.packet()[2] == b.packet()[2]);
    assert(a.packet()[3] == b.packet()[3]);
    assert(a.packet()[4] == b.packet()[4]);
    assert(a.packet()[5] == b.packet()[5]);
}

/// The idle packet is no active control packet, whatever the state.
pub proof fn idle_is_not_active(s: ControlState)
    ensures
        idle_packet() != s.packet(),
{
    assert(idle_packet()[0] == 0xAA);
    assert(s.packet()[0] == HEADER);
}

/// A trim of zero leaves the byte alone; every trimmed value is a byte, and a
/// trim one way is undone by the same trim the other way unless it saturated.
pub proof fn trim_saturates(value: u8, trim: i8)
    ensures
        trimmed(value, 0) == value,
        0 <= trimmed(value, trim) <= 255,
        0 <= value + trim <= 255 && trim != i8::MIN ==> trimmed(
            trimmed(value, trim) as u8,
            (-trim) as i8,
        ) == value,
{
}

/// One ramp step shortens the way to the target by exactly `max_step`, or ends it.
pub proof fn ramp_step_closes_in(current: int, target: int, max_step: int)
    requires
        max_step >= 0,
    ensures
        distance(ramped(current, target, max_step), current) <= max_step,
        distance(ramped(current, target, max_step), target) == if distance(current, target)
            <= max_step {
            0
        } else {
            distance(current, target) - max_step
        },
{
}

/// The ramp reaches its target once its steps add up to the distance, and stays there.
pub proof fn ramp_reaches_target(current: int, target: int, max_step: int, n: nat)
    requires
        max_step >= 0,
    ensures
        n * max_step >= distance(current, target) ==> ramped_times(current, target, max_step, n)
            == target,
        n * max_step < distance(current, target) ==> distance(
            ramped_times(current, target, max_step, n),
            target,
        ) == distance(current, target) - n * max_step,
    decreases n,
{
    if n > 0 {
        ramp_reaches_target(current, target, max_step, (n - 1) as nat);
        ramp_step_closes_in(
            ramped_times(current, target, max_step, (n - 1) as nat),
            target,
            max_step,
        );
        assert((n - 1) * max_step == n * max_step - max_step) by (nonlinear_arith);
    } else {
        assert(0 * max_step == 0);
    }
}

// Video: MJPEG over UDP, drone to phone. Each datagram is
// [frame id][final?][chunk count][0] + 4 vendor magic bytes + a JPEG slice.

/// Vendor magic in bytes 4 to 7 of every video chunk header.
pub const VIDEO_MAGIC: [u8; 4] = [0x54, 0x5A, 0x48, 0x01];

/// Parsed video chunk header.
#[derive(Clone, Copy, Debug, PartialEq, Eq, Structural)]
pub struct VideoChunkHeader {
    pub frame_id: u8,
    /// True for the last chunk of the frame.
    pub is_final: bool,
    /// Chunk count of the frame, meaningful only when `is_final`.
    pub chunk_count: u8,
}

/// Whether a datagram is a video chunk: long enough, with the vendor magic.
pub open spec fn is_video_chunk(d: Seq<u8>) -> bool {
    d.len() >= 8 && d.subrange(4, 8) == VIDEO_MAGIC@
}

/// The header of a video chunk.
pub open spec fn chunk_header(d: Seq<u8>) -> VideoChunkHeader {
    VideoChunkHeader { frame_id: d[0], is_final: d[1] == 1, chunk_count: d[2] }
}

/// The JPEG slice of a video chunk.
pub open spec fn chunk_body(d: Seq<u8>) -> Seq<u8> {
    d.skip(8)
}

/// Parses a video datagram into its header and JPEG slice. `None` if it is too
/// short or the magic does not match.
pub fn parse_video_chunk(datagram: &[u8]) -> (r: Option<(VideoChunkHeader, &[u8])>)
    ensures
        r is Some <==> is_video_chunk(datagram@),
        r matches Some((header, body)) ==> header == chunk_header(datagram@) && body@
            == chunk_body(datagram@),
{
    let n = datagram.len();
    if n < 8 {
        return None;
    }
    let magic = datagram[4] == VIDEO_MAGIC[0] && datagram[5] == VIDEO_MAGIC[1] && datagram[6]
        == VIDEO_MAGIC[2] && datagram[7] == VIDEO_MAGIC[3];
    proof {
        let m = datagram@.subrange(4, 8);
        assert(m[0] == datagram@[4] && m[1] == datagram@[5] && m[2] == datagram@[6] && m[3]
            == datagram@[7]);
        assert(magic ==> m =~= VIDEO_MAGIC@);
    }
    if !magic {
        return None;
    }
    let header = VideoChunkHeader {
        frame_id: datagram[0],
        is_final: datagram[1] == 0x01,
        chunk_count: datagram[2],
    };
    let body = slice_subrange(datagram, 8, n);
    assert(body@ =~= chunk_body(datagram@));
    Some((header, body))
}

/// One more than the largest chunk count that a header can announce: a frame
/// that came in this many chunks or more is never complete.
pub const TOO_MANY_CHUNKS: u16 = 256;

/// What a reassembler holds: the frame it is collecting, the bytes so far, and
/// how many chunks they came in, counted up to `TOO_MANY_CHUNKS`.
pub struct Assembly {
    pub frame_id: Option<u8>,
    pub bytes: Seq<u8>,
    pub received: nat,
}

/// The assembly that holds nothing.
pub open spec fn nothing() -> Assembly {
    Assembly { frame_id: None, bytes: Seq::empty(), received: 0 }
}

/// The assembly after the slice of a video chunk has been appended; a chunk of
/// another frame throws away what was there.
pub open spec fn appended(s: Assembly, d: Seq<u8>) -> Assembly {
    let id = chunk_header(d).frame_id;
    if s.frame_id == Some(id) {
        Assembly {
            frame_id: Some(id),
            bytes: s.bytes + chunk_body(d),
            received: if s.received < TOO_MANY_CHUNKS {
                s.received + 1
            } else {
                TOO_MANY_CHUNKS as nat
            },
        }
    } else {
        Assembly { frame_id: Some(id), bytes: chunk_body(d), received: 1 }
    }
}

/// The assembly after a datagram: unchanged by one that is no video chunk,
/// empty after a final chunk.
pub open spec fn after_push(s: Assembly, d: Seq<u8>) -> Assembly {
    if !is_video_chunk(d) {
        s
    } else if chunk_header(d).is_final {
        nothing()
    } else {
        appended(s, d)
    }
}

/// The frame that a datagram completes, if it does: it is a final chunk, and as
/// many chunks arrived as it announces.
pub open spec fn pushed_frame(s: Assembly, d: Seq<u8>) -> Option<Seq<u8>> {
    if is_video_chunk(d) && chunk_header(d).is_final && appended(s, d).received == chunk_header(
        d,
    ).chunk_count {
        Some(appended(s, d).bytes)
    } else {
        None
    }
}

/// Reassembles complete JPEG frames from in-order video datagrams.
pub struct FrameReassembler {
    frame_id: Option<u8>,
    buf: Vec<u8>,
    received: u16,
}

impl View for FrameReassembler {
    type V = Assembly;

    closed spec fn view(&self) -> Assembly {
        Assembly { frame_id: self.frame_id, bytes: self.buf@, received: self.received as nat }
    }
}

impl Default for FrameReassembler {
    fn default() -> (r: Self)
        ensures
            r@ == nothing(),
    {
        let r = FrameReassembler { frame_id: None, buf: Vec::new(), received: 0 };
        assert(r@.bytes =~= Seq::<u8>::empty());
        r
    }
}

impl FrameReassembler {
    /// A reassembler that holds nothing.
    pub fn new() -> (r: Self)
        ensures
            r@ == nothing(),
    {
        FrameReassembler::default()
    }

    /// Feeds one UDP datagram. Returns the complete JPEG when a frame finishes;
    /// `None` while a frame is still arriving, or if it was dropped (lost chunk,
    /// new frame started early, or bad magic).
    pub fn push(&mut self, datagram: &[u8]) -> (r: Option<Vec<u8>>)
        ensures
            final(self)@ == after_push(old(self)@, datagram@),
            r is Some <==> pushed_frame(old(self)@, datagram@) is Some,
            r matches Some(frame) ==> Some(frame@) == pushed_frame(old(self)@, datagram@),
    {
        let (header, body) = match parse_video_chunk(datagram) {
            Some(p) => p,
            None => {
                return None;
            },
        };
        let same = match self.frame_id {
            Some(id) => id == header.frame_id,
            None => false,
        };
        if !same {
            self.frame_id = Some(header.frame_id);
            self.buf.clear();
            self.received = 0;
        }
        self.buf.extend_from_slice(body);
        if self.received < TOO_MANY_CHUNKS {
            self.received = self.received + 1;
        } else {
            self.received = TOO_MANY_CHUNKS;
        }
        assert(self.buf@ =~= appended(old(self)@, datagram@).bytes);
        if header.is_final {
            let complete = self.received == header.chunk_count as u16;
            let mut frame: Vec<u8> = Vec::new();
            std::mem::swap(&mut frame, &mut self.buf);
            self.frame_id = None;
            self.received = 0;
            assert(self@.bytes =~= Seq::<u8>::empty());
            if complete {
                return Some(frame);
            }
            return None;
        }
        None
    }
}

/// A video datagram: header, magic, JPEG slice.
pub open spec fn video_chunk(header: VideoChunkHeader, body: Seq<u8>) -> Seq<u8> {
    seq![
        header.frame_id,
        if header.is_final {
            1u8
        } else {
            0u8
        },
        header.chunk_count,
        0u8,
    ] + VIDEO_MAGIC@ + body
}

/// The slices of a frame one after the other.
pub open spec fn joined(slices: Seq<Seq<u8>>) -> Seq<u8>
    decreases slices.len(),
{
    if slices.len() == 0 {
        Seq::empty()
    } else {
        joined(slices.drop_last()) + slices.last()
    }
}

/// The slices that video datagrams carry.
pub open spec fn bodies(ds: Seq<Seq<u8>>) -> Seq<Seq<u8>> {
    Seq::new(ds.len(), |i: int| chunk_body(ds[i]))
}

/// Whether video datagrams make up one frame: all carry its id, and the last one alone
/// is marked final.
pub open spec fn one_frame(ds: Seq<Seq<u8>>, id: u8) -> bool {
    forall|i: int|
        0 <= i < ds.len() ==> {
            let d = #[trigger] ds[i];
            &&& is_video_chunk(d)
            &&& chunk_header(d).frame_id == id
            &&& chunk_header(d).is_final == (i == ds.len() - 1)
        }
}

/// The assembly after the first `n` datagrams.
pub open spec fn after_pushes(s: Assembly, ds: Seq<Seq<u8>>, n: nat) -> Assembly
    decreases n,
{
    if n == 0 {
        s
    } else {
        after_push(after_pushes(s, ds, (n - 1) as nat), ds[n - 1])
    }
}

/// Parsing gives back the header and the slice that a datagram was built from.
pub proof fn chunk_parses_back(header: VideoChunkHeader, body: Seq<u8>)
    ensures
        is_video_chunk(video_chunk(header, body)),
        chunk_header(video_chunk(header, body)) == header,
        chunk_body(video_chunk(header, body)) == body,
{
    let d = video_chunk(header, body);
    assert(d.subrange(4, 8) =~= VIDEO_MAGIC@);
    assert(d.skip(8) =~= body);
}

proof fn lemma_collecting(s: Assembly, ds: Seq<Seq<u8>>, id: u8, n: nat)
    requires
        n < ds.len(),
        one_frame(ds, id),
        s.frame_id != Some(id),
    ensures
        n > 0 ==> after_pushes(s, ds, n) == (Assembly {
            frame_id: Some(id),
            bytes: joined(bodies(ds).take(n as int)),
            received: if n < TOO_MANY_CHUNKS {
                n
            } else {
                TOO_MANY_CHUNKS as nat
            },
        }),
    decreases n,
{
    if n > 0 {
        let m = (n - 1) as nat;
        lemma_collecting(s, ds, id, m);
        let d = ds[n - 1];
        let slices = bodies(ds);
        assert(slices.take(n as int).drop_last() =~= slices.take(m as int));
        assert(slices.take(n as int).last() == chunk_body(d));
        if m == 0 {
            assert(slices.take(0).len() == 0);
            assert(joined(slices.take(0)) =~= Seq::<u8>::empty());
            assert(joined(slices.take(n as int)) =~= chunk_body(d));
        }
        assert(after_pushes(s, ds, n).bytes =~= joined(slices.take(n as int)));
    }
}

/// A frame comes out of its last datagram and of no earlier one, byte for byte, where
/// that one announces as many datagrams as there are, and does not come out otherwise;
/// either way nothing is left behind. What the reassembler held before does not matter,
/// as long as it was not part of a frame with the same id.
pub proof fn frame_reassembles(s: Assembly, ds: Seq<Seq<u8>>, id: u8, i: nat)
    requires
        i < ds.len(),
        one_frame(ds, id),
        s.frame_id != Some(id),
    ensures
        pushed_frame(after_pushes(s, ds, i), ds[i as int]) == if i == ds.len() - 1
            && chunk_header(ds.last()).chunk_count == ds.len() {
            Some(joined(bodies(ds)))
        } else {
            None
        },
        after_pushes(s, ds, ds.len()) == nothing(),
{
    let m = (ds.len() - 1) as nat;
    let slices = bodies(ds);
    lemma_collecting(s, ds, id, i);
    lemma_collecting(s, ds, id, m);
    assert(slices.drop_last() =~= slices.take(m as int));
    assert(slices.last() == chunk_body(ds.last()));
    if m == 0 {
        assert(joined(slices.take(0)) =~= Seq::<u8>::empty());
    }
    assert(appended(after_pushes(s, ds, m), ds.last()).bytes =~= joined(slices));
    assert(chunk_header(ds[i as int]).is_final == (i == m));
}

/// A final chunk whose count is not the number of chunks that arrived gives no
/// frame, and the reassembler starts over.
pub proof fn incomplete_frame_is_dropped(s: Assembly, d: Seq<u8>)
    requires
        is_video_chunk(d),
        chunk_header(d).is_final,
        appended(s, d).received != chunk_header(d).chunk_count,
    ensures
        pushed_frame(s, d) is None,
        after_push(s, d) == nothing(),
{
}

/// A frame that came in more chunks than a header can announce is dropped,
/// whatever count its final chunk carries.
pub proof fn overlong_frame_is_dropped(s: Assembly, d: Seq<u8>)
    requires
        is_video_chunk(d),
        s.frame_id == Some(chunk_header(d).frame_id),
        s.received >= 255,
    ensures
        pushed_frame(s, d) is None,
        !chunk_header(d).is_final ==> after_push(s, d).received == TOO_MANY_CHUNKS,
{
}

/// A chunk of another frame is treated as if nothing had been collected.
pub proof fn new_frame_starts_over(s: Assembly, d: Seq<u8>)
    requires
        is_video_chunk(d),
        s.frame_id != Some(chunk_header(d).frame_id),
    ensures
        after_push(s, d) == after_push(nothing(), d),
        pushed_frame(s, d) == pushed_frame(nothing(), d),
{
    assert(Seq::<u8>::empty() + chunk_body(d) =~= chunk_body(d));
}

/// A datagram that is no video chunk changes nothing and gives no frame.
pub proof fn noise_is_ignored(s: Assembly, d: Seq<u8>)
    requires
        !is_video_chunk(d),
    ensures
        after_push(s, d) == s,
        pushed_frame(s, d) is None,
{
}

/// What a receiver finds in an active packet: every field in its place between the
/// framing bytes, and five payload bytes that XOR to the checksum, or, where they XOR to
/// a framing byte, to one less than it.
pub proof fn packet_layout(s: ControlState)
    ensures
        ({
            let p = s.packet();
            let x = p[1] ^ p[2] ^ p[3] ^ p[4] ^ p[5];
            &&& p.len() == 8
            &&& p[0] == 0x66
            &&& p[1] == s.roll
            &&& p[2] == s.pitch
            &&& p[3] == s.throttle
            &&& p[4] == s.yaw
            &&& p[5] == s.flags
            &&& p[7] == 0x99
            &&& p[6] != 0x66 && p[6] != 0x99
            &&& p[6] == x || (x == 0x66 && p[6] == 0x67) || (x == 0x99 && p[6] == 0x9A)
        }),
{
}

/// The idle packet carries centered sticks with the throttle at zero, no flags, and
/// their XOR.
pub proof fn idle_packet_layout()
    ensures
        idle_packet() == seq![0xAAu8, 0x80, 0x80, 0x00, 0x80, 0x00, 0x80, 0x55],
{
    assert(0x80u8 ^ 0x80u8 ^ 0u8 ^ 0x80u8 ^ 0u8 == 0x80u8) by (bit_vector);
    assert(idle_packet() =~= seq![0xAAu8, 0x80, 0x80, 0x00, 0x80, 0x00, 0x80, 0x55]);
}

/// Whether a checksum may have been bumped off a framing byte.
pub open spec fn maybe_bumped(c: int) -> bool {
    c == 0x67 || c == 0x9A
}

/// The checksum covers every bit of every payload byte: where it was not bumped, changing
/// any one byte changes exactly the bits of the checksum that were changed in the byte.
/// In particular a single bit flips that same bit and no other. Zero bytes give zero.
pub proof fn checksum_covers_every_bit(
    roll: u8,
    pitch: u8,
    throttle: u8,
    yaw: u8,
    flags: u8,
    change: u8,
)
    ensures
        checksum_of(0, 0, 0, 0, 0) == 0,
        ({
            let c = checksum_of(roll, pitch, throttle, yaw, flags);
            let changed = (c as u8 ^ change) as int;
            let r = checksum_of(roll ^ change, pitch, throttle, yaw, flags);
            let p = checksum_of(roll, pitch ^ change, throttle, yaw, flags);
            let t = checksum_of(roll, pitch, throttle ^ change, yaw, flags);
            let y = checksum_of(roll, pitch, throttle, yaw ^ change, flags);
            let f = checksum_of(roll, pitch, throttle, yaw, flags ^ change);
            &&& !maybe_bumped(c) && !maybe_bumped(r) ==> r == changed
            &&& !maybe_bumped(c) && !maybe_bumped(p) ==> p == changed
            &&& !maybe_bumped(c) && !maybe_bumped(t) ==> t == changed
            &&& !maybe_bumped(c) && !maybe_bumped(y) ==> y == changed
            &&& !maybe_bumped(c) && !maybe_bumped(f) ==> f == changed
        }),
{
    assert(0u8 ^ 0u8 ^ 0u8 ^ 0u8 ^ 0u8 == 0u8) by (bit_vector);
    let x = roll ^ pitch ^ throttle ^ yaw ^ flags;
    assert((roll ^ change) ^ pitch ^ throttle ^ yaw ^ flags == x ^ change && roll ^ (pitch ^ change)
        ^ throttle ^ yaw ^ flags == x ^ change && roll ^ pitch ^ (throttle ^ change) ^ yaw ^ flags
        == x ^ change && roll ^ pitch ^ throttle ^ (yaw ^ change) ^ flags == x ^ change && roll
        ^ pitch ^ throttle ^ yaw ^ (flags ^ change) == x ^ change) by (bit_vector)
        requires
            x == roll ^ pitch ^ throttle ^ yaw ^ flags,
    ;
}

/// Neutral hover: every axis at 0x80, and the flags that were asked for.
pub proof fn hover_is_centered(flags: u8)
    ensures
        hover(flags).packet()[1] == 0x80,
        hover(flags).packet()[2] == 0x80,
        hover(flags).packet()[3] == 0x80,
        hover(flags).packet()[4] == 0x80,
        hover(flags).packet()[5] == flags,
{
}

/// A trimmed axis is the byte next to the sum of axis and trim: no byte is nearer.
pub proof fn trim_is_nearest_byte(value: u8, trim: i8, other: int)
    requires
        0 <= other <= 255,
    ensures
        0 <= trimmed(value, trim) <= 255,
        distance(trimmed(value, trim), value + trim) <= distance(other, value + trim),
        distance(other, value + trim) == distance(trimmed(value, trim), value + trim) ==> other
            == trimmed(value, trim),
{
}

/// How far two numbers are apart: it takes that many steps from the smaller to the
/// larger.
pub proof fn distance_spans(a: int, b: int)
    ensures
        a <= b ==> a + distance(a, b) == b,
        b <= a ==> b + distance(a, b) == a,
{
}

/// What the bytes of a video datagram mean: the id of the frame, a one for its last
/// chunk, the count, a byte that does not matter, the vendor's four bytes, the slice.
pub proof fn video_datagram_layout(d: Seq<u8>)
    ensures
        is_video_chunk(d) <==> d.len() >= 8 && d[4] == 0x54 && d[5] == 0x5A && d[6] == 0x48 && d[7]
            == 0x01,
        chunk_header(d).frame_id == d[0],
        chunk_header(d).is_final <==> d[1] == 1,
        chunk_header(d).chunk_count == d[2],
        d.len() >= 8 ==> chunk_body(d).len() == d.len() - 8,
        forall|i: int| 0 <= i < d.len() - 8 ==> #[trigger] chunk_body(d)[i] == d[8 + i],
{
    if d.len() >= 8 {
        let magic = d.subrange(4, 8);
        assert(magic[0] == d[4] && magic[1] == d[5] && magic[2] == d[6] && magic[3] == d[7]);
        if d[4] == 0x54 && d[5] == 0x5A && d[6] == 0x48 && d[7] == 0x01 {
            assert(magic =~= VIDEO_MAGIC@);
        }
    }
}

/// Slices are joined in order: one slice is itself, and what is joined of two runs of
/// slices is what is joined of the first, and behind it what is joined of the second.
pub proof fn slices_join_in_order(a: Seq<Seq<u8>>, b: Seq<Seq<u8>>, slice: Seq<u8>)
    ensures
        joined(Seq::empty()) == Seq::<u8>::empty(),
        joined(seq![slice]) == slice,
        joined(a + b) == joined(a) + joined(b),
    decreases b.len(),
{
    assert(seq![slice].drop_last() =~= Seq::<Seq<u8>>::empty());
    reveal_with_fuel(joined, 2);
    assert(joined(seq![slice]) =~= slice);
    if b.len() == 0 {
        assert(a + b =~= a);
        assert(joined(a) + joined(b) =~= joined(a));
    } else {
        slices_join_in_order(a, b.drop_last(), slice);
        assert((a + b).drop_last() =~= a + b.drop_last());
        assert(joined(a + b) =~= joined(a) + joined(b));
    }
}

/// What a chunk does to what was collected: it adds its slice behind the bytes of its own
/// frame, or replaces those of another; a final one hands out all of it, if it announces
/// as many chunks as came, and leaves nothing.
pub proof fn chunk_extends_its_frame(s: Assembly, d: Seq<u8>)
    requires
        is_video_chunk(d),
    ensures
        ({
            let own = s.frame_id == Some(d[0]);
            let before = if own {
                s.bytes
            } else {
                Seq::empty()
            };
            let count = if own {
                s.received + 1
            } else {
                1
            };
            let t = after_push(s, d);
            if d[1] != 1 {
                &&& pushed_frame(s, d) is None
                &&& t.frame_id == Some(d[0])
                &&& t.bytes == before + d.skip(8)
                &&& s.received < 256 ==> t.received == count
            } else {
                &&& t.frame_id is None && t.bytes.len() == 0 && t.received == 0
                &&& s.received < 256 ==> (pushed_frame(s, d) is Some <==> count == d[2])
                &&& pushed_frame(s, d) is Some ==> pushed_frame(s, d) == Some(before + d.skip(8))
            }
        }),
{
    assert(Seq::<u8>::empty() + d.skip(8) =~= d.skip(8));
}

} // verus!
