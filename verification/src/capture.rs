//! Packet captures: finds the drone's video datagrams in a little-endian pcap file,
//! to replay them through the reassembler.

use crate::bytes;
use crate::bytes::u16_be;
use crate::net::{DRONE_IP, VIDEO_PORT};
use crate::protocol;
use crate::protocol::{Assembly, FrameReassembler};
use vstd::prelude::*;
use vstd::slice::slice_subrange;

verus! {

/// First bytes of a little-endian capture.
pub const PCAP_MAGIC: [u8; 4] = [0xD4, 0xC3, 0xB2, 0xA1];

/// Length of the file header, of a record header, of an Ethernet header and of the
/// shortest IPv4 header.
pub const FILE_HEADER: usize = 24;

pub const RECORD_HEADER: usize = 16;

pub const ETHERNET_HEADER: usize = 14;

pub const IPV4_HEADER: usize = 20;

pub const UDP_HEADER: usize = 8;

/// IPv4 protocol number of UDP.
pub const UDP: u8 = 17;

/// Whether a file is a little-endian capture.
pub fn is_capture(data: &[u8]) -> (b: bool)
    ensures
        b == (data@.len() >= 4 && data@.take(4) == PCAP_MAGIC@),
{
    if data.len() < 4 {
        return false;
    }
    let b = data[0] == PCAP_MAGIC[0] && data[1] == PCAP_MAGIC[1] && data[2] == PCAP_MAGIC[2]
        && data[3] == PCAP_MAGIC[3];
    proof {
        let head = data@.take(4);
        assert(head[0] == data@[0] && head[1] == data@[1] && head[2] == data@[2] && head[3]
            == data@[3]);
        if b {
            assert(head =~= PCAP_MAGIC@);
        }
    }
    b
}

/// The captured bytes of the record at `off`: from where to where, or nothing where
/// the file ends before them.
pub open spec fn record_at(data: Seq<u8>, off: int) -> Option<(int, int)> {
    let start = off + RECORD_HEADER;
    if start > data.len() {
        None
    } else {
        let end = start + bytes::read32(data, off + 8);
        if end > data.len() {
            None
        } else {
            Some((start, end))
        }
    }
}

/// The captured bytes of the record at `off`; the next record starts where they end.
pub fn next_record(data: &[u8], off: usize) -> (r: Option<(usize, usize)>)
    ensures
        match record_at(data@, off as int) {
            Some((start, end)) => r matches Some(range) && range.0 == start && range.1 == end,
            None => r is None,
        },
{
    if data.len() < RECORD_HEADER || off > data.len() - RECORD_HEADER {
        return None;
    }
    let start: usize = off + RECORD_HEADER;
    let len: u64 = data[off + 8] as u64 + 0x100 * data[off + 9] as u64 + 0x1_0000 * data[off
        + 10] as u64 + 0x100_0000 * data[off + 11] as u64;
    if len > (data.len() - start) as u64 {
        None
    } else {
        Some((start, start + len as usize))
    }
}

/// Where the IPv4 packet of a captured frame starts: at once, or behind an Ethernet
/// header.
pub open spec fn ip_start(frame: Seq<u8>) -> Option<int> {
    if frame.len() > 0 && frame[0] as int / 16 == 4 {
        Some(0)
    } else if frame.len() > ETHERNET_HEADER && frame[ETHERNET_HEADER as int] as int / 16 == 4 {
        Some(ETHERNET_HEADER as int)
    } else {
        None
    }
}

/// Length of a packet's own header.
pub open spec fn header_len(ip: Seq<u8>) -> int {
    (ip[0] as int % 16) * 4
}

/// Whether a packet is UDP, and was captured to its end.
pub open spec fn is_udp(ip: Seq<u8>) -> bool {
    &&& ip.len() >= IPV4_HEADER
    &&& ip[9] == UDP
    &&& ip.len() >= header_len(ip) + UDP_HEADER
    &&& bytes::read16_be(ip, 2) <= ip.len()
}

/// The UDP part of a packet.
pub open spec fn udp_part(ip: Seq<u8>) -> Seq<u8> {
    ip.subrange(header_len(ip), bytes::read16_be(ip, 2))
}

/// Whether a UDP packet comes from the drone's video port.
pub open spec fn from_video_port(ip: Seq<u8>) -> bool {
    let udp = udp_part(ip);
    &&& ip.subrange(12, 16) == DRONE_IP@
    &&& bytes::read16_be(udp, 0) == VIDEO_PORT
    &&& bytes::read16_be(udp, 4) >= UDP_HEADER
}

/// Whether the lengths in a frame agree: a UDP packet reaches past its port and length
/// fields, and the drone's past its whole header.
pub open spec fn readable(frame: Seq<u8>) -> bool {
    match ip_start(frame) {
        Some(s) => {
            let ip = frame.skip(s);
            let len = bytes::read16_be(ip, 2) - header_len(ip);
            is_udp(ip) ==> len >= 6 && (from_video_port(ip) ==> len >= UDP_HEADER)
        },
        None => true,
    }
}

/// The payload of a UDP packet: as long as its header says, or as was captured.
pub open spec fn udp_payload(udp: Seq<u8>) -> Seq<u8> {
    let len = bytes::read16_be(udp, 4);
    udp.subrange(
        UDP_HEADER as int,
        if len < udp.len() {
            len
        } else {
            udp.len() as int
        },
    )
}

/// The video datagram in a captured frame: UDP from the drone's video port.
pub open spec fn video_datagram(frame: Seq<u8>) -> Option<Seq<u8>> {
    match ip_start(frame) {
        Some(s) => {
            let ip = frame.skip(s);
            if is_udp(ip) && from_video_port(ip) {
                Some(udp_payload(udp_part(ip)))
            } else {
                None
            }
        },
        None => None,
    }
}

fn ip_offset(frame: &[u8]) -> (s: Option<usize>)
    ensures
        match ip_start(frame@) {
            Some(t) => s matches Some(v) && v == t,
            None => s is None,
        },
        s matches Some(v) ==> v < frame@.len(),
{
    if frame.len() > 0 && frame[0] / 16 == 4 {
        Some(0)
    } else if frame.len() > ETHERNET_HEADER && frame[ETHERNET_HEADER] / 16 == 4 {
        Some(ETHERNET_HEADER)
    } else {
        None
    }
}

fn udp_range(ip: &[u8]) -> (r: Option<(usize, usize)>)
    ensures
        match r {
            Some((from, to)) => is_udp(ip@) && from == header_len(ip@) && to == bytes::read16_be(ip@, 2),
            None => !is_udp(ip@),
        },
{
    let n = ip.len();
    if n < IPV4_HEADER || ip[9] != UDP {
        return None;
    }
    let from: usize = (ip[0] % 16) as usize * 4;
    let to = u16_be(ip, 2);
    if n < from + UDP_HEADER || to > n {
        None
    } else {
        Some((from, to))
    }
}

fn is_from_video_port(ip: &[u8], from: usize, to: usize) -> (b: bool)
    requires
        is_udp(ip@),
        from == header_len(ip@),
        to == bytes::read16_be(ip@, 2),
        from + 6 <= to,
    ensures
        b == from_video_port(ip@),
{
    let udp = slice_subrange(ip, from, to);
    assert(udp@ == udp_part(ip@));
    let from_drone = ip[12] == DRONE_IP[0] && ip[13] == DRONE_IP[1] && ip[14] == DRONE_IP[2]
        && ip[15] == DRONE_IP[3];
    proof {
        let src = ip@.subrange(12, 16);
        assert(src[0] == ip@[12] && src[1] == ip@[13] && src[2] == ip@[14] && src[3] == ip@[15]);
        if from_drone {
            assert(src =~= DRONE_IP@);
        }
    }
    from_drone && u16_be(udp, 0) == VIDEO_PORT as usize && u16_be(udp, 4) >= UDP_HEADER
}

/// Whether the lengths in a frame agree.
pub fn is_readable(frame: &[u8]) -> (b: bool)
    ensures
        b == readable(frame@),
{
    match ip_offset(frame) {
        Some(s) => {
            let ip = slice_subrange(frame, s, frame.len());
            assert(ip@ =~= frame@.skip(s as int));
            match udp_range(ip) {
                Some((from, to)) => from + 6 <= to && (from + UDP_HEADER <= to
                    || !is_from_video_port(ip, from, to)),
                None => true,
            }
        },
        None => true,
    }
}

/// The video datagram in a captured frame, if there is one.
pub fn video_payload(frame: &[u8]) -> (r: Option<&[u8]>)
    requires
        readable(frame@),
    ensures
        match video_datagram(frame@) {
            Some(payload) => r matches Some(p) && p@ == payload,
            None => r is None,
        },
{
    let s = match ip_offset(frame) {
        Some(s) => s,
        None => return None,
    };
    let ip = slice_subrange(frame, s, frame.len());
    assert(ip@ =~= frame@.skip(s as int));
    let (from, to) = match udp_range(ip) {
        Some(range) => range,
        None => return None,
    };
    if !is_from_video_port(ip, from, to) {
        return None;
    }
    let udp = slice_subrange(ip, from, to);
    assert(udp@ == udp_part(ip@));
    let len = u16_be(udp, 4);
    let end = if len < udp.len() {
        len
    } else {
        udp.len()
    };
    Some(slice_subrange(udp, UDP_HEADER, end))
}

/// What the reassembler holds after a captured frame, and the video frame that it
/// completes.
pub open spec fn replay_step(s: Assembly, frame: Seq<u8>) -> (Assembly, Option<Seq<u8>>) {
    match video_datagram(frame) {
        Some(d) => (protocol::after_push(s, d), protocol::pushed_frame(s, d)),
        None => (s, None),
    }
}

/// The video frames in the records from `off` on.
pub open spec fn replayed(s: Assembly, data: Seq<u8>, off: int) -> Seq<Seq<u8>>
    decreases data.len() - off,
{
    match record_at(data, off) {
        Some((start, end)) => {
            let (t, frame) = replay_step(s, data.subrange(start, end));
            match frame {
                Some(jpeg) => seq![jpeg] + replayed(t, data, end),
                None => replayed(t, data, end),
            }
        },
        None => Seq::empty(),
    }
}

/// Whether the records from `off` on can be replayed: the lengths in each of them
/// agree.
pub open spec fn replayable(data: Seq<u8>, off: int) -> bool
    decreases data.len() - off,
{
    match record_at(data, off) {
        Some((start, end)) => readable(data.subrange(start, end)) && replayable(data, end),
        None => true,
    }
}

/// Whether a whole capture can be replayed.
pub fn can_replay(data: &[u8]) -> (b: bool)
    ensures
        b == replayable(data@, FILE_HEADER as int),
{
    let mut off: usize = FILE_HEADER;
    loop
        invariant
            replayable(data@, FILE_HEADER as int) == replayable(data@, off as int),
        decreases usize::MAX - off,
    {
        match next_record(data, off) {
            None => return true,
            Some((start, end)) => {
                if !is_readable(slice_subrange(data, start, end)) {
                    return false;
                }
                off = end;
            },
        }
    }
}

/// A replay in progress.
pub struct Replay {
    off: usize,
    reasm: FrameReassembler,
}

impl Replay {
    /// The video frames that are still to come.
    pub closed spec fn rest(&self, data: Seq<u8>) -> Seq<Seq<u8>> {
        replayed(self.reasm@, data, self.off as int)
    }

    /// Whether they can be replayed.
    pub closed spec fn fits(&self, data: Seq<u8>) -> bool {
        replayable(data, self.off as int)
    }

    /// At the first record.
    pub fn new() -> (r: Self)
        ensures
            forall|data: Seq<u8>|
                #[trigger] r.rest(data) == replayed(protocol::nothing(), data, FILE_HEADER as int),
            forall|data: Seq<u8>|
                #[trigger] r.fits(data) == replayable(data, FILE_HEADER as int),
    {
        Replay { off: FILE_HEADER, reasm: FrameReassembler::new() }
    }

    /// The next video frame of a capture.
    pub fn next_frame(&mut self, data: &[u8]) -> (r: Option<Vec<u8>>)
        requires
            old(self).fits(data@),
        ensures
            final(self).fits(data@),
            match r {
                Some(jpeg) => old(self).rest(data@) == seq![jpeg@] + final(self).rest(data@),
                None => old(self).rest(data@).len() == 0 && final(self).rest(data@).len() == 0,
            },
    {
        loop
            invariant
                self.fits(data@),
                self.rest(data@) == old(self).rest(data@),
            decreases usize::MAX - self.off,
        {
            match next_record(data, self.off) {
                None => return None,
                Some((start, end)) => {
                    let frame = slice_subrange(data, start, end);
                    self.off = end;
                    if let Some(payload) = video_payload(frame) {
                        if let Some(jpeg) = self.reasm.push(payload) {
                            return Some(jpeg);
                        }
                    }
                },
            }
        }
    }
}

/// Whether a frame looks whole: a start marker in front, and an end marker somewhere
/// (padding may follow it).
pub open spec fn whole_jpeg(jpeg: Seq<u8>) -> bool {
    &&& jpeg.len() >= 2
    &&& jpeg[0] == 0xFF
    &&& jpeg[1] == 0xD8
    &&& exists|i: int| 0 <= i < jpeg.len() - 1 && #[trigger] jpeg[i] == 0xFF && jpeg[i + 1] == 0xD9
}

/// Whether a frame looks whole.
pub fn is_whole_jpeg(jpeg: &[u8]) -> (b: bool)
    ensures
        b == whole_jpeg(jpeg@),
{
    let n = jpeg.len();
    if n < 2 || jpeg[0] != 0xFF || jpeg[1] != 0xD8 {
        return false;
    }
    for i in 0..n - 1
        invariant
            n == jpeg@.len(),
            n >= 2,
            jpeg@[0] == 0xFF,
            jpeg@[1] == 0xD8,
            forall|j: int|
                0 <= j < i ==> !(#[trigger] jpeg@[j] == 0xFF && jpeg@[j + 1] == 0xD9),
    {
        if jpeg[i] == 0xFF && jpeg[i + 1] == 0xD9 {
            assert(jpeg@[i as int] == 0xFF);
            return true;
        }
    }
    false
}

/// Records come one after the other: each ends inside the file, past its start.
pub proof fn records_make_progress(data: Seq<u8>, off: int)
    requires
        0 <= off,
        record_at(data, off) is Some,
    ensures
        ({
            let (start, end) = record_at(data, off)->0;
            off < start <= end <= data.len()
        }),
{
}

/// Where a record's bytes lie: behind sixteen bytes of header, and as many as the third
/// number of the header says, the lowest byte first; nowhere if the file ends before.
pub proof fn record_layout(data: Seq<u8>, off: int)
    requires
        0 <= off,
    ensures
        off + 16 > data.len() ==> record_at(data, off) is None,
        off + 16 <= data.len() ==> {
            let n = data[off + 8] + 0x100 * data[off + 9] + 0x1_0000 * data[off + 10] + 0x100_0000
                * data[off + 11];
            &&& off + 16 + n <= data.len() ==> record_at(data, off) == Some(
                (off + 16, off + 16 + n),
            )
            &&& off + 16 + n > data.len() ==> record_at(data, off) is None
        },
{
}

/// Whether a frame holds a datagram from the drone's video port in an IPv4 packet that
/// starts at `s`, by its bytes: version and header length, UDP, the drone's address and
/// port, and lengths that the capture reaches to.
pub open spec fn is_drone_video(frame: Seq<u8>, s: int) -> bool {
    let n = frame.len() - s;
    let h = 4 * (frame[s] as int % 16);
    let total = 0x100 * frame[s + 2] + frame[s + 3];
    &&& n >= 20 && n >= h + 8 && h + 8 <= total <= n
    &&& frame[s] as int / 16 == 4
    &&& frame[s + 9] == 17
    &&& frame[s + 12] == 192 && frame[s + 13] == 168 && frame[s + 14] == 4 && frame[s + 15] == 153
    &&& 0x100 * frame[s + h] + frame[s + h + 1] == 8080
    &&& 0x100 * frame[s + h + 4] + frame[s + h + 5] >= 8
}

/// A captured frame holds a video datagram exactly where its bytes say so, at its start or
/// behind fourteen bytes of Ethernet; the datagram is what follows the UDP header, as far
/// as the UDP length and the packet reach.
pub proof fn drone_video_is_found(frame: Seq<u8>, k: int)
    requires
        readable(frame),
        frame.len() > 0,
    ensures
        ({
            let s = if frame[0] as int / 16 == 4 {
                0int
            } else {
                14
            };
            let h = 4 * (frame[s] as int % 16);
            let end = 0x100 * frame[s + 2] + frame[s + 3] - h;
            let len = 0x100 * frame[s + h + 4] + frame[s + h + 5];
            let reach = if len < end {
                len
            } else {
                end
            };
            &&& video_datagram(frame) is Some <==> s < frame.len() && is_drone_video(frame, s)
            &&& video_datagram(frame) matches Some(d) ==> d.len() == reach - 8 && (0 <= k
                < d.len() ==> d[k] == frame[s + h + 8 + k])
        }),
{
    let s = if frame[0] as int / 16 == 4 {
        0int
    } else {
        14
    };
    if s < frame.len() && frame[s] as int / 16 == 4 {
        assert(ip_start(frame) == Some(s));
        let ip = frame.skip(s);
        assert(ip.len() == frame.len() - s);
        assert(forall|i: int| 0 <= i < ip.len() ==> #[trigger] ip[i] == frame[s + i]);
        if is_udp(ip) {
            let h = header_len(ip);
            let src = ip.subrange(12, 16);
            assert(src[0] == ip[12] && src[1] == ip[13] && src[2] == ip[14] && src[3] == ip[15]);
            if ip[12] == 192 && ip[13] == 168 && ip[14] == 4 && ip[15] == 153 {
                assert(src =~= DRONE_IP@);
            }
            let udp = udp_part(ip);
            assert(udp.len() >= 6);
            assert(forall|i: int| 0 <= i < udp.len() ==> #[trigger] udp[i] == ip[h + i]);
            assert(ip[9] == frame[s + 9]);
            assert(udp[0] == frame[s + h] && udp[1] == frame[s + h + 1] && udp[4] == frame[s + h
                + 4] && udp[5] == frame[s + h + 5]);
            if from_video_port(ip) {
                let d = udp_payload(udp);
                if 0 <= k < d.len() {
                    assert(d[k] == udp[8 + k]);
                }
            }
        }
    }
}

/// The video datagrams in the records from `off` on.
pub open spec fn datagrams(data: Seq<u8>, off: int) -> Seq<Seq<u8>>
    decreases data.len() - off,
{
    match record_at(data, off) {
        Some((start, end)) => match video_datagram(data.subrange(start, end)) {
            Some(d) => seq![d] + datagrams(data, end),
            None => datagrams(data, end),
        },
        None => Seq::empty(),
    }
}

/// The frames that come out of a reassembler as it is fed datagram after datagram.
pub open spec fn frames_of(s: Assembly, ds: Seq<Seq<u8>>) -> Seq<Seq<u8>>
    decreases ds.len(),
{
    if ds.len() == 0 {
        Seq::empty()
    } else {
        let rest = frames_of(protocol::after_push(s, ds[0]), ds.skip(1));
        match protocol::pushed_frame(s, ds[0]) {
            Some(jpeg) => seq![jpeg] + rest,
            None => rest,
        }
    }
}

/// Replaying a capture is feeding its video datagrams to a reassembler, in the order in
/// which they were captured.
pub proof fn replay_feeds_the_reassembler(s: Assembly, data: Seq<u8>, off: int)
    requires
        0 <= off,
    ensures
        replayed(s, data, off) == frames_of(s, datagrams(data, off)),
    decreases data.len() - off,
{
    if let Some((start, end)) = record_at(data, off) {
        let (t, _) = replay_step(s, data.subrange(start, end));
        replay_feeds_the_reassembler(t, data, end);
        if let Some(d) = video_datagram(data.subrange(start, end)) {
            let ds = seq![d] + datagrams(data, end);
            assert(ds.skip(1) =~= datagrams(data, end));
        }
    }
}

/// A frame counts as whole where it starts with the start marker and holds the end marker
/// somewhere, whatever lies between and behind; not where it is cut off before.
pub proof fn whole_frames_have_both_markers(a: Seq<u8>, b: Seq<u8>, cut: Seq<u8>)
    ensures
        whole_jpeg(seq![0xFFu8, 0xD8u8] + a + seq![0xFFu8, 0xD9u8] + b),
        cut.len() < 2 || cut[0] != 0xFF || cut[1] != 0xD8 ==> !whole_jpeg(cut),
        (forall|i: int| 0 <= i < cut.len() - 1 ==> #[trigger] cut[i] != 0xFF || cut[i + 1] != 0xD9)
            ==> !whole_jpeg(cut),
{
    let j = seq![0xFFu8, 0xD8u8] + a + seq![0xFFu8, 0xD9u8] + b;
    let at = 2 + a.len() as int;
    assert(j[at] == 0xFF && j[at + 1] == 0xD9);
    assert(j[0] == 0xFF && j[1] == 0xD8);
}

/// Which frames can be read: all that hold no UDP packet; of the others those whose packet
/// reaches past the ports and the length, and, if it is the drone's video, past all eight
/// bytes of the UDP header.
pub proof fn lengths_must_agree(frame: Seq<u8>, s: int)
    requires
        frame.len() > 0,
        s == if frame[0] as int / 16 == 4 {
            0int
        } else {
            14
        },
    ensures
        s >= frame.len() || frame[s] as int / 16 != 4 ==> readable(frame),
        s < frame.len() && frame[s] as int / 16 == 4 ==> {
            let n = frame.len() - s;
            let h = 4 * (frame[s] as int % 16);
            let total = 0x100 * frame[s + 2] + frame[s + 3];
            &&& n < 20 || frame[s + 9] != 17 || n < h + 8 || total > n ==> readable(frame)
            &&& n >= 20 && frame[s + 9] == 17 && n >= h + 8 && total <= n ==> {
                &&& total >= h + 8 ==> readable(frame)
                &&& total < h + 6 ==> !readable(frame)
            }
        },
{
    if s < frame.len() && frame[s] as int / 16 == 4 {
        assert(ip_start(frame) == Some(s));
        let ip = frame.skip(s);
        assert(ip.len() == frame.len() - s);
        assert(forall|i: int| 0 <= i < ip.len() ==> #[trigger] ip[i] == frame[s + i]);
    }
}

/// The captured frames from `off` on.
pub open spec fn captured(data: Seq<u8>, off: int) -> Seq<Seq<u8>>
    decreases data.len() - off,
{
    match record_at(data, off) {
        Some((start, end)) => seq![data.subrange(start, end)] + captured(data, end),
        None => Seq::empty(),
    }
}

/// A capture can be replayed exactly where every frame in it can be read.
pub proof fn readable_captures_replay(data: Seq<u8>, off: int)
    requires
        0 <= off,
    ensures
        replayable(data, off) <==> (forall|i: int|
            0 <= i < captured(data, off).len() ==> readable(#[trigger] captured(data, off)[i])),
    decreases data.len() - off,
{
    if let Some((start, end)) = record_at(data, off) {
        readable_captures_replay(data, end);
        let (all, rest) = (captured(data, off), captured(data, end));
        assert(all[0] == data.subrange(start, end));
        assert(forall|i: int| 0 <= i < rest.len() ==> #[trigger] rest[i] == all[i + 1]);
        assert(forall|i: int| 1 <= i < all.len() ==> #[trigger] all[i] == rest[i - 1]);
    }
}

} // verus!
