use vectordb_core::recovery::replay_after_snapshot;
use vectordb_core::wal::{encode_frame, probe_frame, FrameProbe, ScanEnd, WalFrame, WalOpKind, WalReader};

fn two_frames() -> Vec<u8> {
    let mut bytes = encode_frame(1, WalOpKind::Insert.op_code(), b"first");
    bytes.extend(encode_frame(2, WalOpKind::Delete.op_code(), b"second!"));
    bytes
}

#[test]
fn frame_layout_matches_the_documented_format() {
    let frame = encode_frame(0x0102030405060708, 2, b"ab");
    assert_eq!(frame.len(), 21 + 2);
    assert_eq!(&frame[0..4], b"VWAL");
    assert_eq!(frame[4], 2);
    assert_eq!(&frame[5..13], &0x0102030405060708u64.to_le_bytes());
    assert_eq!(&frame[13..17], &2u32.to_le_bytes());
    assert_eq!(&frame[17..19], b"ab");
    assert_eq!(&frame[19..23], &crc32fast::hash(&frame[0..19]).to_le_bytes());
}

#[test]
fn op_codes_follow_the_log_format() {
    assert_eq!(WalOpKind::CreateCollection.op_code(), 1);
    assert_eq!(WalOpKind::Insert.op_code(), 2);
    assert_eq!(WalOpKind::Delete.op_code(), 3);
    assert_eq!(WalOpKind::DropCollection.op_code(), 4);
}

#[test]
fn scan_reads_back_what_was_written() {
    let bytes = two_frames();
    let scan = WalReader::scan_frames(&bytes);
    assert_eq!(scan.end, ScanEnd::Complete);
    assert_eq!(scan.valid_len, bytes.len() as u64);
    assert_eq!(scan.frames.len(), 2);
    assert_eq!(scan.frames[0].seq, 1);
    assert_eq!(scan.frames[0].op_type, 2);
    assert_eq!(scan.frames[0].payload, b"first".to_vec());
    assert_eq!(scan.frames[1].seq, 2);
    assert_eq!(scan.frames[1].op_type, 3);
    assert_eq!(scan.frames[1].payload, b"second!".to_vec());
}

#[test]
fn scan_of_empty_log_is_complete() {
    let scan = WalReader::scan_frames(&[]);
    assert_eq!(scan.end, ScanEnd::Complete);
    assert_eq!(scan.valid_len, 0);
    assert!(scan.frames.is_empty());
}

#[test]
fn torn_tail_keeps_the_whole_frames_before_it() {
    let mut bytes = two_frames();
    let valid = bytes.len() as u64;
    bytes.extend_from_slice(b"VWAL\x02\x03\x00\x00\x00\x00\x00\x00\x00\x05\x00\x00\x00corrupt");
    let scan = WalReader::scan_frames(&bytes);
    assert_eq!(scan.end, ScanEnd::TornTail);
    assert_eq!(scan.valid_len, valid);
    assert_eq!(scan.frames.len(), 2);
}

#[test]
fn partial_magic_at_end_is_a_torn_tail() {
    let mut bytes = two_frames();
    let valid = bytes.len() as u64;
    bytes.extend_from_slice(b"VWA");
    let scan = WalReader::scan_frames(&bytes);
    assert_eq!(scan.end, ScanEnd::TornTail);
    assert_eq!(scan.valid_len, valid);
    assert_eq!(scan.frames.len(), 2);
}

#[test]
fn bad_checksum_is_reported_with_both_values() {
    let bytes = b"VWAL\x02\x05\x00\x00\x00\x00\x00\x00\x00\x04\x00\x00\x00data\xff\xff\xff\xff";
    let scan = WalReader::scan_frames(bytes);
    let actual = crc32fast::hash(&bytes[0..21]);
    assert_eq!(scan.end, ScanEnd::CrcMismatch { offset: 0, expected: 0xffff_ffff, actual });
    assert_eq!(scan.valid_len, 0);
    assert!(scan.frames.is_empty());
}

#[test]
fn bad_magic_is_reported_at_its_offset() {
    let mut bytes = encode_frame(9, 1, b"x");
    let at = bytes.len() as u64;
    bytes.extend_from_slice(b"JUNKJUNKJUNKJUNKJUNKJUNK");
    let scan = WalReader::scan_frames(&bytes);
    assert_eq!(scan.end, ScanEnd::BadMagic { offset: at });
    assert_eq!(scan.frames.len(), 1);
    assert_eq!(scan.valid_len, at);
}

#[test]
fn probe_tells_the_state_of_a_position() {
    let bytes = encode_frame(3, 4, b"xyz");
    assert_eq!(
        probe_frame(&bytes, 0),
        FrameProbe::Whole {
            op_type: 4,
            seq: 3,
            payload_len: 3,
            stored_crc: crc32fast::hash(&bytes[0..20]),
        }
    );
    assert_eq!(probe_frame(&bytes, bytes.len()), FrameProbe::End);
    assert_eq!(probe_frame(&bytes[0..10], 0), FrameProbe::Torn);
    assert_eq!(probe_frame(&bytes, 1), FrameProbe::BadMagic);
}

#[test]
fn frames_from_several_files_are_put_in_sequence_order() {
    let frames = vec![
        WalFrame { seq: 5, op: "e" },
        WalFrame { seq: 1, op: "a" },
        WalFrame { seq: 4, op: "d" },
        WalFrame { seq: 2, op: "b" },
        WalFrame { seq: 3, op: "c" },
    ];
    let ordered = WalReader::order_frames(frames);
    let seqs: Vec<u64> = ordered.iter().map(|f| f.seq).collect();
    let ops: Vec<&str> = ordered.iter().map(|f| f.op).collect();
    assert_eq!(seqs, vec![1, 2, 3, 4, 5]);
    assert_eq!(ops, vec!["a", "b", "c", "d", "e"]);
}

#[test]
fn replay_skips_what_the_snapshot_covers() {
    let frames = vec![
        WalFrame { seq: 3, op: 'a' },
        WalFrame { seq: 7, op: 'b' },
        WalFrame { seq: 8, op: 'c' },
        WalFrame { seq: 12, op: 'd' },
    ];
    let (replay, resume) = replay_after_snapshot(frames, 7);
    let ops: Vec<char> = replay.iter().map(|f| f.op).collect();
    assert_eq!(ops, vec!['c', 'd']);
    assert_eq!(resume, 12);
}

#[test]
fn replay_with_nothing_after_the_snapshot_resumes_from_it() {
    let frames = vec![WalFrame { seq: 2, op: () }, WalFrame { seq: 5, op: () }];
    let (replay, resume) = replay_after_snapshot(frames, 9);
    assert!(replay.is_empty());
    assert_eq!(resume, 9);
}

#[test]
fn frames_with_equal_sequence_numbers_keep_their_order() {
    let frames = vec![
        WalFrame { seq: 2, op: "x" },
        WalFrame { seq: 1, op: "a" },
        WalFrame { seq: 2, op: "y" },
        WalFrame { seq: 1, op: "b" },
        WalFrame { seq: 2, op: "z" },
    ];
    let ordered = WalReader::order_frames(frames);
    let ops: Vec<&str> = ordered.iter().map(|f| f.op).collect();
    assert_eq!(ops, vec!["a", "b", "x", "y", "z"]);
}
