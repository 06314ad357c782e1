use glitchwing::protocol::{
    apply_trim, checksum, idle_keepalive, parse_video_chunk, ramp_toward, ControlState,
    FrameReassembler, VideoChunkHeader, FLAG_CALIBRATE, FLAG_EMERGENCY, FLAG_HEADLESS,
};

// Reference vectors captured from the stock app.
fn cs(roll: u8, pitch: u8, throttle: u8, yaw: u8, flags: u8) -> ControlState {
    ControlState { roll, pitch, throttle, yaw, flags }
}

#[test]
fn neutral_hover_encodes_to_reference() {
    assert_eq!(ControlState::neutral().encode(), [0x66, 0x80, 0x80, 0x80, 0x80, 0x00, 0x00, 0x99]);
}

#[test]
fn climb_encodes_to_reference() {
    assert_eq!(cs(0x80, 0x80, 0x87, 0x80, 0x00).encode(), [0x66, 0x80, 0x80, 0x87, 0x80, 0x00, 0x07, 0x99]);
}

#[test]
fn descend_with_yaw_encodes_to_reference() {
    assert_eq!(cs(0x80, 0x80, 0x54, 0x87, 0x00).encode(), [0x66, 0x80, 0x80, 0x54, 0x87, 0x00, 0xd3, 0x99]);
}

#[test]
fn yaw_right_encodes_to_reference() {
    assert_eq!(cs(0x80, 0x80, 0x80, 0x82, 0x00).encode(), [0x66, 0x80, 0x80, 0x80, 0x82, 0x00, 0x02, 0x99]);
}

#[test]
fn pitch_full_forward_encodes_to_reference() {
    assert_eq!(cs(0x8c, 0xff, 0x80, 0x80, 0x00).encode(), [0x66, 0x8c, 0xff, 0x80, 0x80, 0x00, 0x73, 0x99]);
}

#[test]
fn roll_near_min_encodes_to_reference() {
    assert_eq!(cs(0x01, 0x80, 0x80, 0x80, 0x00).encode(), [0x66, 0x01, 0x80, 0x80, 0x80, 0x00, 0x81, 0x99]);
}

#[test]
fn headless_flag_encodes_to_reference() {
    assert_eq!(cs(0x80, 0x80, 0x80, 0x80, FLAG_HEADLESS).encode(), [0x66, 0x80, 0x80, 0x80, 0x80, 0x10, 0x10, 0x99]);
}

#[test]
fn calibrate_flag_encodes_to_reference() {
    assert_eq!(cs(0x80, 0x80, 0x80, 0x80, FLAG_CALIBRATE).encode(), [0x66, 0x80, 0x80, 0x80, 0x80, 0x80, 0x80, 0x99]);
}

#[test]
fn emergency_stop_encodes_to_reference() {
    assert_eq!(cs(0x82, 0x81, 0x80, 0x80, FLAG_EMERGENCY).encode(), [0x66, 0x82, 0x81, 0x80, 0x80, 0x04, 0x07, 0x99]);
}

#[test]
fn idle_keepalive_matches_reference() {
    assert_eq!(idle_keepalive(), [0xaa, 0x80, 0x80, 0x00, 0x80, 0x00, 0x80, 0x55]);
}

#[test]
fn trim_offsets_and_saturates() {
    assert_eq!(apply_trim(128, 10), 138);
    assert_eq!(apply_trim(128, -10), 118);
    assert_eq!(apply_trim(250, 10), 255);
    assert_eq!(apply_trim(2, -10), 0);
}

#[test]
fn ramp_moves_by_at_most_max_step() {
    assert_eq!(ramp_toward(128, 200, 16), 144);
    assert_eq!(ramp_toward(200, 128, 16), 184);
}

#[test]
fn ramp_snaps_when_within_step() {
    assert_eq!(ramp_toward(128, 130, 16), 130);
    assert_eq!(ramp_toward(128, 128, 16), 128);
}

#[test]
fn checksum_bumps_on_header_collision() {
    // XOR that lands on 0x66 must become 0x67.
    assert_eq!(checksum(0x66, 0x00, 0x00, 0x00, 0x00), 0x67);
}

#[test]
fn checksum_bumps_on_footer_collision() {
    assert_eq!(checksum(0x99, 0x00, 0x00, 0x00, 0x00), 0x9a);
}

// --- video reassembly ---

/// Build a video datagram with the real header layout.
fn chunk(frame_id: u8, is_final: bool, count: u8, body: &[u8]) -> Vec<u8> {
    let b1 = if is_final { 0x01 } else { 0x00 };
    let b2 = if is_final { count } else { 0x00 };
    let mut v = vec![frame_id, b1, b2, 0x00, 0x54, 0x5A, 0x48, 0x01];
    v.extend_from_slice(body);
    v
}

#[test]
fn parse_chunk_rejects_short_and_bad_magic() {
    assert!(parse_video_chunk(&[0x01, 0x00]).is_none());
    assert!(parse_video_chunk(&[1, 0, 0, 0, b'X', b'Y', b'Z', 1, 0xff]).is_none());
}

#[test]
fn parse_chunk_reads_header_and_body() {
    let d = chunk(3, true, 5, &[0xff, 0xd9]);
    let (h, body) = parse_video_chunk(&d).expect("valid chunk");
    assert_eq!(h, VideoChunkHeader { frame_id: 3, is_final: true, chunk_count: 5 });
    assert_eq!(body, &[0xff, 0xd9]);
}

#[test]
fn assembles_two_chunk_frame_in_order() {
    let mut r = FrameReassembler::new();
    assert_eq!(r.push(&chunk(1, false, 0, &[0xff, 0xd8, 0xaa])), None);
    let frame = r.push(&chunk(1, true, 2, &[0xbb, 0xff, 0xd9])).expect("frame complete");
    assert_eq!(frame, vec![0xff, 0xd8, 0xaa, 0xbb, 0xff, 0xd9]);
}

#[test]
fn drops_frame_when_a_chunk_is_lost() {
    // Final chunk says count=3 but only 2 datagrams arrived -> incomplete, drop.
    let mut r = FrameReassembler::new();
    assert_eq!(r.push(&chunk(7, false, 0, &[0xff, 0xd8])), None);
    assert_eq!(r.push(&chunk(7, true, 3, &[0xff, 0xd9])), None);
}

#[test]
fn new_frame_id_resets_incomplete_previous() {
    let mut r = FrameReassembler::new();
    r.push(&chunk(1, false, 0, &[0xff, 0xd8, 0x11])); // frame 1 never finishes
    // Frame 2 arrives complete in one (final) chunk.
    let frame = r.push(&chunk(2, true, 1, &[0xff, 0xd8, 0x22, 0xff, 0xd9])).expect("frame 2");
    assert_eq!(frame, vec![0xff, 0xd8, 0x22, 0xff, 0xd9]);
}

#[test]
fn ignores_datagram_with_bad_magic() {
    let mut r = FrameReassembler::new();
    let mut bad = chunk(1, true, 1, &[0xff, 0xd8, 0xff, 0xd9]);
    bad[4] = b'X'; // corrupt magic
    assert_eq!(r.push(&bad), None);
}

#[test]
fn checksum_is_plain_xor_elsewhere() {
    assert_eq!(checksum(0x01, 0x02, 0x04, 0x08, 0x10), 0x1f);
    assert_eq!(checksum(0x65, 0x00, 0x00, 0x00, 0x00), 0x65);
}

#[test]
fn packet_never_repeats_its_frame_bytes_in_the_checksum() {
    for roll in 0..=255u8 {
        let p = cs(roll, 0x80, 0x80, 0x80, 0x00).encode();
        assert!(p[6] != 0x66 && p[6] != 0x99);
        assert_eq!((p[0], p[7]), (0x66, 0x99));
        assert_eq!(p[1], roll);
    }
}

#[test]
fn different_states_encode_differently() {
    let a = cs(1, 2, 3, 4, 5);
    let b = cs(1, 2, 3, 4, 6);
    assert_ne!(a.encode(), b.encode());
    assert_ne!(idle_keepalive(), cs(0x80, 0x80, 0x00, 0x80, 0x00).encode());
}

#[test]
fn ramp_reaches_its_target_and_stays() {
    let mut v = 0u8;
    let mut steps = 0;
    while v != 128 {
        v = ramp_toward(v, 128, 6);
        steps += 1;
    }
    assert_eq!(steps, 22);
    assert_eq!(ramp_toward(v, 128, 6), 128);
    assert_eq!(ramp_toward(250, 255, 10), 255);
    assert_eq!(ramp_toward(5, 0, 10), 0);
    assert_eq!(ramp_toward(5, 0, 0), 5);
}

#[test]
fn trim_extremes_saturate() {
    assert_eq!(apply_trim(0, -128), 0);
    assert_eq!(apply_trim(255, 127), 255);
    assert_eq!(apply_trim(128, -128), 0);
    assert_eq!(apply_trim(128, 127), 255);
}

#[test]
fn header_alone_is_an_empty_chunk() {
    let d = chunk(9, false, 0, &[]);
    let (h, body) = parse_video_chunk(&d).expect("valid chunk");
    assert_eq!(h, VideoChunkHeader { frame_id: 9, is_final: false, chunk_count: 0 });
    assert!(body.is_empty());
}

#[test]
fn only_a_final_byte_of_one_is_final() {
    let mut d = chunk(9, true, 4, &[]);
    d[1] = 2;
    let (h, _) = parse_video_chunk(&d).expect("valid chunk");
    assert!(!h.is_final);
    assert_eq!(h.chunk_count, 4);
}

#[test]
fn reassembles_many_frames_in_a_row() {
    let mut r = FrameReassembler::default();
    for id in 0..5u8 {
        assert_eq!(r.push(&chunk(id, false, 0, &[id, 1])), None);
        assert_eq!(r.push(&chunk(id, false, 0, &[id, 2])), None);
        assert_eq!(r.push(&chunk(id, true, 3, &[id, 3])), Some(vec![id, 1, id, 2, id, 3]));
    }
}

#[test]
fn noise_between_chunks_changes_nothing() {
    let mut r = FrameReassembler::new();
    assert_eq!(r.push(&chunk(1, false, 0, &[0xaa])), None);
    assert_eq!(r.push(&[0x00; 7]), None);
    assert_eq!(r.push(&[0x00; 40]), None);
    assert_eq!(r.push(&chunk(1, true, 2, &[0xbb])), Some(vec![0xaa, 0xbb]));
}

#[test]
fn a_frame_in_too_many_chunks_is_dropped() {
    let mut r = FrameReassembler::new();
    for _ in 0..255 {
        assert_eq!(r.push(&[1, 0, 0, 0, 0x54, 0x5A, 0x48, 1]), None);
    }
    assert_eq!(r.push(&[1, 0, 0, 0, 0x54, 0x5A, 0x48, 1]), None);
    assert_eq!(r.push(&chunk(1, true, 1, &[0xaa])), None);
    assert_eq!(r.push(&chunk(1, true, 1, &[0xbb])), Some(vec![0xbb]));

    for _ in 0..1000 {
        assert_eq!(r.push(&chunk(2, false, 0, &[0xaa])), None);
    }
    assert_eq!(r.push(&chunk(2, true, 0, &[0xaa])), None);
}

#[test]
fn a_frame_in_the_most_chunks_comes_out_whole() {
    let mut r = FrameReassembler::new();
    for i in 0..254u8 {
        assert_eq!(r.push(&chunk(3, false, 0, &[i])), None);
    }
    let frame: Vec<u8> = (0..255).collect();
    assert_eq!(r.push(&chunk(3, true, 255, &[254])), Some(frame));
}

#[test]
fn bytes_that_mean_nothing_do_not_matter() {
    let mut r = FrameReassembler::new();
    // a count in a chunk that is not final, and a reserved byte
    assert_eq!(r.push(&[4, 0, 9, 0xEE, 0x54, 0x5A, 0x48, 1, 0xaa]), None);
    assert_eq!(r.push(&[4, 7, 2, 0, 0x54, 0x5A, 0x48, 1, 0xbb]), None);
    let last = [4, 1, 3, 5, 0x54, 0x5A, 0x48, 1, 0xcc];
    assert_eq!(r.push(&last), Some(vec![0xaa, 0xbb, 0xcc]));
}
