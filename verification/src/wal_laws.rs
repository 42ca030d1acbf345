//! What the log framing guarantees across writing and reading.
use crate::wal::{crc32_checksum, frame_body, frame_bytes, payload_len_at, probe_at, scan_from, wal_magic, FrameProbe, FrameSpec, ScanEnd, ScanSpec};
use vstd::bytes::*;
use vstd::prelude::*;

verus! {

/// A frame's payload fits the four-byte length field.
pub open spec fn frame_fits(f: FrameSpec) -> bool {
    f.payload.len() <= u32::MAX
}

pub open spec fn all_fit(frames: Seq<FrameSpec>) -> bool {
    forall|i: int| 0 <= i < frames.len() ==> frame_fits(#[trigger] frames[i])
}

/// The bytes of a log that holds `frames`, written in order.
pub open spec fn encode_all(frames: Seq<FrameSpec>) -> Seq<u8>
    decreases frames.len(),
{
    if frames.len() == 0 {
        seq![]
    } else {
        frame_bytes(frames[0].op_type, frames[0].seq, frames[0].payload) + encode_all(
            frames.drop_first(),
        )
    }
}

proof fn lemma_frame_layout(op_type: u8, seq: u64, payload: Seq<u8>)
    requires
        payload.len() <= u32::MAX,
    ensures
        ({
            let fb = frame_bytes(op_type, seq, payload);
            let plen = payload.len() as int;
            &&& fb.len() == 21 + plen
            &&& fb.subrange(0, 4) == wal_magic()
            &&& fb[4] == op_type
            &&& spec_u64_from_le_bytes(fb.subrange(5, 13)) == seq
            &&& spec_u32_from_le_bytes(fb.subrange(13, 17)) == payload.len()
            &&& fb.subrange(17, 17 + plen) == payload
            &&& fb.subrange(0, 17 + plen) == frame_body(op_type, seq, payload)
            &&& spec_u32_from_le_bytes(fb.subrange(17 + plen, 21 + plen)) == crc32_checksum(
                frame_body(op_type, seq, payload),
            )
        }),
{
    lemma_auto_spec_u64_to_from_le_bytes();
    lemma_auto_spec_u32_to_from_le_bytes();
    let plen = payload.len() as int;
    let body = frame_body(op_type, seq, payload);
    let fb = frame_bytes(op_type, seq, payload);
    let s8 = spec_u64_to_le_bytes(seq);
    let l4 = spec_u32_to_le_bytes(payload.len() as u32);
    let c4 = spec_u32_to_le_bytes(crc32_checksum(body));
    assert(s8.len() == 8);
    assert(l4.len() == 4);
    assert(c4.len() == 4);
    assert(body.len() == 17 + plen);
    assert(fb.subrange(0, 4) =~= wal_magic());
    assert(fb.subrange(5, 13) =~= s8);
    assert(fb.subrange(13, 17) =~= l4);
    assert(fb.subrange(17, 17 + plen) =~= payload);
    assert(fb.subrange(0, 17 + plen) =~= body);
    assert(fb.subrange(17 + plen, 21 + plen) =~= c4);
}

/// Reading at a position where a whole encoded frame sits yields that frame,
/// then whatever follows it.
proof fn lemma_scan_frame_at(bytes: Seq<u8>, pos: int, f: FrameSpec)
    requires
        frame_fits(f),
        0 <= pos,
        pos + 21 + f.payload.len() <= bytes.len(),
        bytes.subrange(pos, pos + 21 + f.payload.len()) == frame_bytes(f.op_type, f.seq, f.payload),
    ensures
        scan_from(bytes, pos).frames == seq![f] + scan_from(
            bytes,
            pos + 21 + f.payload.len(),
        ).frames,
        scan_from(bytes, pos).valid_len == scan_from(bytes, pos + 21 + f.payload.len()).valid_len,
        scan_from(bytes, pos).end == scan_from(bytes, pos + 21 + f.payload.len()).end,
{
    let plen = f.payload.len() as int;
    let fb = frame_bytes(f.op_type, f.seq, f.payload);
    lemma_frame_layout(f.op_type, f.seq, f.payload);
    assert(bytes.subrange(pos, pos + 4) =~= fb.subrange(0, 4));
    assert(bytes[pos + 4] == fb[4]);
    assert(bytes.subrange(pos + 5, pos + 13) =~= fb.subrange(5, 13));
    assert(bytes.subrange(pos + 13, pos + 17) =~= fb.subrange(13, 17));
    assert(bytes.subrange(pos + 17, pos + 17 + plen) =~= fb.subrange(17, 17 + plen));
    assert(bytes.subrange(pos, pos + 17 + plen) =~= fb.subrange(0, 17 + plen));
    assert(bytes.subrange(pos + 17 + plen, pos + 21 + plen) =~= fb.subrange(17 + plen, 21 + plen));
    assert(payload_len_at(bytes, pos) == plen);
    let rest = scan_from(bytes, pos + 21 + plen);
    let here = scan_from(bytes, pos);
    assert(here.frames == seq![f] + rest.frames);
}

proof fn lemma_encode_all_len(frames: Seq<FrameSpec>)
    requires
        all_fit(frames),
    ensures
        encode_all(frames).len() >= 0,
        frames.len() == 0 ==> encode_all(frames).len() == 0,
        frames.len() > 0 ==> encode_all(frames).len() == 21 + frames[0].payload.len()
            + encode_all(frames.drop_first()).len(),
    decreases frames.len(),
{
    if frames.len() > 0 {
        lemma_frame_layout(frames[0].op_type, frames[0].seq, frames[0].payload);
    }
}

/// Scanning across a region that holds encoded frames yields exactly those frames,
/// then whatever the bytes after the region yield.
proof fn lemma_scan_encoded_region(bytes: Seq<u8>, pos: int, frames: Seq<FrameSpec>)
    requires
        all_fit(frames),
        0 <= pos,
        pos + encode_all(frames).len() <= bytes.len(),
        bytes.subrange(pos, pos + encode_all(frames).len()) == encode_all(frames),
    ensures
        scan_from(bytes, pos).frames == frames + scan_from(
            bytes,
            pos + encode_all(frames).len(),
        ).frames,
        scan_from(bytes, pos).valid_len == scan_from(bytes, pos + encode_all(frames).len()).valid_len,
        scan_from(bytes, pos).end == scan_from(bytes, pos + encode_all(frames).len()).end,
    decreases frames.len(),
{
    if frames.len() == 0 {
        assert(frames + scan_from(bytes, pos).frames =~= scan_from(bytes, pos).frames);
    } else {
        let f = frames[0];
        let rest = frames.drop_first();
        assert(frame_fits(f));
        assert(all_fit(rest)) by {
            assert forall|i: int| 0 <= i < rest.len() implies frame_fits(#[trigger] rest[i]) by {
                assert(rest[i] == frames[i + 1]);
            }
        }
        lemma_encode_all_len(frames);
        lemma_frame_layout(f.op_type, f.seq, f.payload);
        let n = 21 + f.payload.len() as int;
        let fb = frame_bytes(f.op_type, f.seq, f.payload);
        let enc = encode_all(frames);
        assert(enc == fb + encode_all(rest));
        assert(bytes.subrange(pos, pos + n) =~= enc.subrange(0, n));
        assert(enc.subrange(0, n) =~= fb);
        lemma_scan_frame_at(bytes, pos, f);
        assert(bytes.subrange(pos + n, pos + n + encode_all(rest).len()) =~= enc.subrange(
            n,
            enc.len() as int,
        ));
        assert(enc.subrange(n, enc.len() as int) =~= encode_all(rest));
        lemma_scan_encoded_region(bytes, pos + n, rest);
        assert(seq![f] + (rest + scan_from(bytes, pos + enc.len()).frames) =~= frames + scan_from(
            bytes,
            pos + enc.len(),
        ).frames);
    }
}

/// Law: a log written frame by frame reads back as exactly those frames, covering every byte.
pub proof fn law_scan_of_written_log(frames: Seq<FrameSpec>)
    requires
        all_fit(frames),
    ensures
        scan_from(encode_all(frames), 0) == (ScanSpec {
            frames,
            valid_len: encode_all(frames).len(),
            end: ScanEnd::Complete,
        }),
{
    let enc = encode_all(frames);
    assert(enc.subrange(0, enc.len() as int) =~= enc);
    lemma_scan_encoded_region(enc, 0, frames);
    assert(frames + seq![] =~= frames);
}

/// Law: when a crash cuts the last write short, reading the log recovers every
/// frame written before it, stops at the torn frame, and marks the place where
/// the log is to be cut back.
pub proof fn law_scan_recovers_before_torn_write(
    frames: Seq<FrameSpec>,
    torn: FrameSpec,
    kept: int,
)
    requires
        all_fit(frames),
        frame_fits(torn),
        0 < kept < 21 + torn.payload.len(),
    ensures
        ({
            let partial = frame_bytes(torn.op_type, torn.seq, torn.payload).subrange(0, kept);
            scan_from(encode_all(frames) + partial, 0) == (ScanSpec {
                frames,
                valid_len: encode_all(frames).len(),
                end: ScanEnd::TornTail,
            })
        }),
{
    let fb = frame_bytes(torn.op_type, torn.seq, torn.payload);
    lemma_frame_layout(torn.op_type, torn.seq, torn.payload);
    let partial = fb.subrange(0, kept);
    let enc = encode_all(frames);
    let bytes = enc + partial;
    let p = enc.len() as int;
    assert(bytes.subrange(0, p) =~= enc);
    lemma_scan_encoded_region(bytes, 0, frames);
    if kept >= 4 {
        assert(bytes.subrange(p, p + 4) =~= fb.subrange(0, 4));
    }
    if kept >= 17 {
        assert(bytes.subrange(p + 13, p + 17) =~= fb.subrange(13, 17));
        assert(payload_len_at(bytes, p) == torn.payload.len());
    }
    assert(probe_at(bytes, p) == FrameProbe::Torn);
    assert(frames + seq![] =~= frames);
}

/// Law: fewer than four bytes after the last whole frame, whatever they hold,
/// are a write cut short: reading the log recovers every frame before them and
/// marks the end of the last whole frame as the place to cut the log back.
pub proof fn law_scan_cuts_short_tail(frames: Seq<FrameSpec>, tail: Seq<u8>)
    requires
        all_fit(frames),
        0 < tail.len() < 4,
    ensures
        scan_from(encode_all(frames) + tail, 0) == (ScanSpec {
            frames,
            valid_len: encode_all(frames).len(),
            end: ScanEnd::TornTail,
        }),
{
    let enc = encode_all(frames);
    let bytes = enc + tail;
    let p = enc.len() as int;
    assert(bytes.subrange(0, p) =~= enc);
    lemma_scan_encoded_region(bytes, 0, frames);
    assert(probe_at(bytes, p) == FrameProbe::Torn);
    assert(frames + seq![] =~= frames);
}

/// Law: when four or more bytes follow the last whole frame and they do not open
/// with the magic, reading the log recovers every frame before them and reports
/// bad magic at the end of the last whole frame.
pub proof fn law_scan_reports_bad_magic(frames: Seq<FrameSpec>, junk: Seq<u8>)
    requires
        all_fit(frames),
        junk.len() >= 4,
        junk.subrange(0, 4) != wal_magic(),
    ensures
        scan_from(encode_all(frames) + junk, 0) == (ScanSpec {
            frames,
            valid_len: encode_all(frames).len(),
            end: ScanEnd::BadMagic { offset: encode_all(frames).len() as u64 },
        }),
{
    let enc = encode_all(frames);
    let bytes = enc + junk;
    let p = enc.len() as int;
    assert(bytes.subrange(0, p) =~= enc);
    lemma_scan_encoded_region(bytes, 0, frames);
    assert(bytes.subrange(p, p + 4) =~= junk.subrange(0, 4));
    assert(probe_at(bytes, p) == FrameProbe::BadMagic);
    assert(frames + seq![] =~= frames);
}

/// Law: a whole frame whose stored checksum does not match its contents is
/// reported, at its offset, after the frames before it; nothing after it is read.
pub proof fn law_scan_reports_checksum_mismatch(
    frames: Seq<FrameSpec>,
    bad: FrameSpec,
    stored: u32,
    tail: Seq<u8>,
)
    requires
        all_fit(frames),
        frame_fits(bad),
        stored != crc32_checksum(frame_body(bad.op_type, bad.seq, bad.payload)),
    ensures
        ({
            let body = frame_body(bad.op_type, bad.seq, bad.payload);
            let bytes = encode_all(frames) + body + spec_u32_to_le_bytes(stored) + tail;
            let off = encode_all(frames).len();
            off <= u64::MAX ==> scan_from(bytes, 0) == (ScanSpec {
                frames,
                valid_len: off,
                end: ScanEnd::CrcMismatch {
                    offset: off as u64,
                    expected: stored,
                    actual: crc32_checksum(body),
                },
            })
        }),
{
    lemma_auto_spec_u64_to_from_le_bytes();
    lemma_auto_spec_u32_to_from_le_bytes();
    let body = frame_body(bad.op_type, bad.seq, bad.payload);
    let enc = encode_all(frames);
    let c4 = spec_u32_to_le_bytes(stored);
    let bytes = enc + body + c4 + tail;
    let p = enc.len() as int;
    let plen = bad.payload.len() as int;
    let l4 = spec_u32_to_le_bytes(bad.payload.len() as u32);
    assert(c4.len() == 4);
    assert(l4.len() == 4);
    assert(spec_u64_to_le_bytes(bad.seq).len() == 8);
    assert(body.len() == 17 + plen);
    assert(bytes.subrange(0, p) =~= enc);
    lemma_scan_encoded_region(bytes, 0, frames);
    assert(bytes.subrange(p, p + 4) =~= wal_magic());
    assert(bytes.subrange(p + 13, p + 17) =~= l4);
    assert(payload_len_at(bytes, p) == plen);
    assert(bytes.subrange(p, p + 17 + plen) =~= body);
    assert(bytes.subrange(p + 17 + plen, p + 21 + plen) =~= c4);
    assert(frames + seq![] =~= frames);
}

} // verus!
