use glitchwing::capture::{
    can_replay, is_capture, is_readable, is_whole_jpeg, next_record, video_payload, Replay,
    FILE_HEADER,
};

/// A UDP packet from the drone's video port.
fn packet(payload: &[u8]) -> Vec<u8> {
    let total = 20 + 8 + payload.len() as u16;
    let mut ip = vec![0x45, 0];
    ip.extend_from_slice(&total.to_be_bytes());
    ip.extend_from_slice(&[0, 0, 0, 0, 64, 17, 0, 0, 192, 168, 4, 153, 10, 0, 0, 2]);
    ip.extend_from_slice(&8080u16.to_be_bytes());
    ip.extend_from_slice(&5000u16.to_be_bytes());
    ip.extend_from_slice(&(8 + payload.len() as u16).to_be_bytes());
    ip.extend_from_slice(&[0, 0]);
    ip.extend_from_slice(payload);
    ip
}

fn record(out: &mut Vec<u8>, frame: &[u8]) {
    out.extend_from_slice(&[0; 8]);
    out.extend_from_slice(&(frame.len() as u32).to_le_bytes());
    out.extend_from_slice(&(frame.len() as u32).to_le_bytes());
    out.extend_from_slice(frame);
}

#[test]
fn finds_the_payload_raw_and_behind_ethernet() {
    let raw = packet(&[1, 2, 3]);
    assert!(is_readable(&raw));
    assert_eq!(video_payload(&raw), Some(&[1u8, 2, 3][..]));
    let mut eth = vec![0; 14];
    eth.extend_from_slice(&raw);
    assert_eq!(video_payload(&eth), Some(&[1u8, 2, 3][..]));
}

#[test]
fn skips_what_is_not_from_the_drone() {
    assert_eq!(video_payload(&[]), None);
    assert_eq!(video_payload(&[0x60; 60]), None);
    assert_eq!(video_payload(&packet(&[1])[..19]), None);
    for (i, v) in [(9, 6), (12, 10), (20, 0), (25, 7)] {
        let mut p = packet(&[1, 2, 3]);
        p[i] = v;
        assert!(is_readable(&p));
        assert_eq!(video_payload(&p), None, "byte {i}");
    }
}

#[test]
fn payload_is_cut_to_its_own_length() {
    let mut p = packet(&[1, 2, 3, 4]);
    p[25] = 10;
    assert_eq!(video_payload(&p), Some(&[1u8, 2][..]));
    p[25] = 200;
    assert_eq!(video_payload(&p), Some(&[1u8, 2, 3, 4][..]));
}

#[test]
fn contradicting_lengths_are_unreadable() {
    let mut p = packet(&[1, 2, 3]);
    p[3] = 25;
    assert!(!is_readable(&p));
    p[3] = 27;
    assert!(!is_readable(&p));
    p[12] = 10;
    assert!(is_readable(&p), "not the drone's");
}

#[test]
fn walks_the_records_and_reassembles() {
    let mut data = vec![0xd4, 0xc3, 0xb2, 0xa1];
    data.resize(FILE_HEADER, 0);
    let head = [9, 0, 0, 0, 0x54, 0x5A, 0x48, 0x01, 0xFF, 0xD8];
    let tail = [9, 1, 2, 0, 0x54, 0x5A, 0x48, 0x01, 0xFF, 0xD9, 0];
    record(&mut data, &packet(&head));
    record(&mut data, b"noise");
    record(&mut data, &packet(&tail));
    data.extend_from_slice(&[0; 15]);
    assert!(is_capture(&data));

    let mut records = 0;
    let mut off = FILE_HEADER;
    while let Some((_, end)) = next_record(&data, off) {
        records += 1;
        off = end;
    }
    assert_eq!(records, 3);

    assert!(can_replay(&data));
    let mut replay = Replay::new();
    let jpeg = replay.next_frame(&data).expect("a frame");
    assert_eq!(jpeg, [0xFF, 0xD8, 0xFF, 0xD9, 0]);
    assert!(is_whole_jpeg(&jpeg));
    assert_eq!(replay.next_frame(&data), None);
    assert_eq!(replay.next_frame(&data), None);
}

#[test]
fn replays_frame_after_frame() {
    let mut data = vec![0; FILE_HEADER];
    for id in 0..4u8 {
        record(&mut data, &packet(&[id, 1, 1, 0, 0x54, 0x5A, 0x48, 0x01, id, id]));
    }
    let mut replay = Replay::new();
    for id in 0..4u8 {
        assert_eq!(replay.next_frame(&data), Some(vec![id, id]));
    }
    assert_eq!(replay.next_frame(&data), None);
}

#[test]
fn damaged_captures_cannot_be_replayed() {
    let mut p = packet(&[1, 2, 3]);
    p[3] = 25;
    let mut data = vec![0; FILE_HEADER];
    record(&mut data, &p);
    assert!(!can_replay(&data));
}

#[test]
fn a_frame_in_too_many_chunks_is_skipped() {
    let mut data = vec![0; FILE_HEADER];
    for _ in 0..256 {
        record(&mut data, &packet(&[9, 0, 0, 0, 0x54, 0x5A, 0x48, 0x01, 7]));
    }
    record(&mut data, &packet(&[9, 1, 1, 0, 0x54, 0x5A, 0x48, 0x01, 7]));
    record(&mut data, &packet(&[10, 1, 1, 0, 0x54, 0x5A, 0x48, 0x01, 8]));
    assert!(can_replay(&data));
    let mut replay = Replay::new();
    assert_eq!(replay.next_frame(&data), Some(vec![8]));
    assert_eq!(replay.next_frame(&data), None);
}

#[test]
fn cut_off_records_end_the_walk() {
    let mut data = vec![0; FILE_HEADER];
    record(&mut data, &[1, 2, 3]);
    assert_eq!(next_record(&data, FILE_HEADER), Some((40, 43)));
    assert_eq!(next_record(&data[..42], FILE_HEADER), None);
    assert_eq!(next_record(&data, 43), None);
    assert_eq!(next_record(&data, usize::MAX), None);
    assert!(!is_capture(&data));
    assert!(!is_capture(&[0xd4, 0xc3]));
}

#[test]
fn whole_jpegs_have_both_markers() {
    assert!(is_whole_jpeg(&[0xFF, 0xD8, 0xFF, 0xD9]));
    assert!(is_whole_jpeg(&[0xFF, 0xD8, 1, 0xFF, 0xD9, 0, 0]));
    assert!(!is_whole_jpeg(&[0xFF, 0xD8, 0xFF]));
    assert!(!is_whole_jpeg(&[0xFF, 0xD9]));
    assert!(!is_whole_jpeg(&[0, 0xFF, 0xD8, 0xFF, 0xD9]));
    assert!(!is_whole_jpeg(&[0xFF]));
}
