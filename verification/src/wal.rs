//! Binary framing of the write-ahead log.
//!
//! Every record is written as one frame:
//! `[magic "VWAL":4][op_type:1][seq:8 LE][payload_len:4 LE][payload][crc32:4 LE]`,
//! where the CRC-32 covers everything before it. The payload itself is the
//! serialized operation, produced and consumed outside this module.
use vstd::bytes::*;
use vstd::prelude::*;
use vstd::slice::*;

verus! {

/// Bytes before the payload: magic, op type, sequence number, payload length.
pub const FRAME_HEADER_LEN: usize = 17;

/// Bytes of framing around a payload: header plus the trailing checksum.
pub const FRAME_OVERHEAD: usize = 21;

/// The four magic bytes `b"VWAL"` that open every frame.
pub open spec fn wal_magic() -> Seq<u8> {
    seq![86u8, 87u8, 65u8, 76u8]
}

/// `rounds` shifts of a CRC-32 register, each folding in the reflected IEEE
/// polynomial `0xEDB88320` when the bit shifted out is set.
pub open spec fn crc32_shift(c: u32, rounds: nat) -> u32
    decreases rounds,
{
    if rounds == 0 {
        c
    } else {
        let next = if c & 1u32 == 1u32 {
            (c >> 1u32) ^ 0xEDB8_8320u32
        } else {
            c >> 1u32
        };
        crc32_shift(next, (rounds - 1) as nat)
    }
}

/// The CRC-32 register after the bytes, starting from all ones.
pub open spec fn crc32_register(bytes: Seq<u8>) -> u32
    decreases bytes.len(),
{
    if bytes.len() == 0 {
        0xFFFF_FFFFu32
    } else {
        crc32_shift(crc32_register(bytes.drop_last()) ^ (bytes.last() as u32), 8)
    }
}

/// The CRC-32 (IEEE) checksum of a byte sequence: the final register, inverted.
pub open spec fn crc32_checksum(bytes: Seq<u8>) -> u32 {
    crc32_register(bytes) ^ 0xFFFF_FFFFu32
}

/// Calls `crc32fast::hash`, which computes the CRC-32 (IEEE) checksum of the
/// bytes; the contract states that checksum bit by bit.
#[verifier::external_body]
fn crc32(bytes: &[u8]) -> (r: u32)
    ensures
        r == crc32_checksum(bytes@),
{
    crc32fast::hash(bytes)
}

/// The part of a frame that its checksum covers.
pub open spec fn frame_body(op_type: u8, seq: u64, payload: Seq<u8>) -> Seq<u8> {
    wal_magic() + seq![op_type] + spec_u64_to_le_bytes(seq) + spec_u32_to_le_bytes(
        payload.len() as u32,
    ) + payload
}

/// The complete on-disk encoding of one record.
pub open spec fn frame_bytes(op_type: u8, seq: u64, payload: Seq<u8>) -> Seq<u8> {
    let body = frame_body(op_type, seq, payload);
    body + spec_u32_to_le_bytes(crc32_checksum(body))
}

/// The kind of logged operation, which fixes the frame's op-type byte.
#[derive(Debug, Clone, Copy, PartialEq, Eq, Structural)]
pub enum WalOpKind {
    CreateCollection,
    Insert,
    Delete,
    DropCollection,
}

pub open spec fn op_code_of(kind: WalOpKind) -> u8 {
    match kind {
        WalOpKind::CreateCollection => 1,
        WalOpKind::Insert => 2,
        WalOpKind::Delete => 3,
        WalOpKind::DropCollection => 4,
    }
}

impl WalOpKind {
    /// The op-type byte written into the frame header.
    pub fn op_code(self) -> (r: u8)
        ensures
            r == op_code_of(self),
    {
        match self {
            WalOpKind::CreateCollection => 1,
            WalOpKind::Insert => 2,
            WalOpKind::Delete => 3,
            WalOpKind::DropCollection => 4,
        }
    }
}

/// Encodes one record as a frame.
pub fn encode_frame(seq: u64, op_type: u8, payload: &[u8]) -> (r: Vec<u8>)
    requires
        payload@.len() <= u32::MAX,
    ensures
        r@ == frame_bytes(op_type, seq, payload@),
{
    let mut out: Vec<u8> = Vec::new();
    out.push(86u8);
    out.push(87u8);
    out.push(65u8);
    out.push(76u8);
    out.push(op_type);
    let seq_bytes = u64_to_le_bytes(seq);
    append_bytes(&mut out, seq_bytes.as_slice());
    let len_bytes = u32_to_le_bytes(payload.len() as u32);
    append_bytes(&mut out, len_bytes.as_slice());
    append_bytes(&mut out, payload);
    let ghost body = out@;
    assert(body =~= frame_body(op_type, seq, payload@));
    let crc = crc32(out.as_slice());
    let crc_bytes = u32_to_le_bytes(crc);
    append_bytes(&mut out, crc_bytes.as_slice());
    out
}

fn append_bytes(out: &mut Vec<u8>, bytes: &[u8])
    ensures
        final(out)@ == old(out)@ + bytes@,
{
    let mut i: usize = 0;
    while i < bytes.len()
        invariant
            0 <= i <= bytes@.len(),
            out@ == old(out)@ + bytes@.subrange(0, i as int),
        decreases bytes@.len() - i,
    {
        out.push(bytes[i]);
        i = i + 1;
        assert(out@ =~= old(out)@ + bytes@.subrange(0, i as int));
    }
    assert(bytes@.subrange(0, bytes@.len() as int) =~= bytes@);
}

/// What the bytes at a position hold, judged from the framing alone.
#[derive(Debug, Clone, Copy, PartialEq, Eq, Structural)]
pub enum FrameProbe {
    /// No byte remains.
    End,
    /// Fewer bytes remain than the frame they begin needs: a write cut short.
    Torn,
    /// The four bytes at the position are not the magic.
    BadMagic,
    /// A whole frame is present; its checksum is not yet compared.
    Whole { op_type: u8, seq: u64, payload_len: u32, stored_crc: u32 },
}

/// The magic, read at `pos`, is intact.
pub open spec fn magic_at(bytes: Seq<u8>, pos: int) -> bool {
    bytes.subrange(pos, pos + 4) == wal_magic()
}

pub open spec fn payload_len_at(bytes: Seq<u8>, pos: int) -> nat {
    spec_u32_from_le_bytes(bytes.subrange(pos + 13, pos + 17)) as nat
}

/// The framing verdict for the bytes from `pos` on.
pub open spec fn probe_at(bytes: Seq<u8>, pos: int) -> FrameProbe {
    let remaining = bytes.len() - pos;
    if remaining <= 0 {
        FrameProbe::End
    } else if remaining < 4 {
        FrameProbe::Torn
    } else if !magic_at(bytes, pos) {
        FrameProbe::BadMagic
    } else if remaining < FRAME_HEADER_LEN {
        FrameProbe::Torn
    } else if remaining < FRAME_OVERHEAD + payload_len_at(bytes, pos) {
        FrameProbe::Torn
    } else {
        let plen = payload_len_at(bytes, pos);
        FrameProbe::Whole {
            op_type: bytes[pos + 4],
            seq: spec_u64_from_le_bytes(bytes.subrange(pos + 5, pos + 13)),
            payload_len: plen as u32,
            stored_crc: spec_u32_from_le_bytes(
                bytes.subrange(pos + FRAME_HEADER_LEN + plen, pos + FRAME_OVERHEAD + plen),
            ),
        }
    }
}

/// Reads the framing of the record that starts at `pos`.
pub fn probe_frame(bytes: &[u8], pos: usize) -> (r: FrameProbe)
    requires
        pos <= bytes@.len(),
    ensures
        r == probe_at(bytes@, pos as int),
        pos == bytes@.len() ==> r == FrameProbe::End,
        0 < bytes@.len() - pos < 4 ==> r == FrameProbe::Torn,
{
    let remaining = bytes.len() - pos;
    if remaining == 0 {
        return FrameProbe::End;
    }
    if remaining < 4 {
        return FrameProbe::Torn;
    }
    let is_magic = bytes[pos] == 86u8 && bytes[pos + 1] == 87u8 && bytes[pos + 2] == 65u8
        && bytes[pos + 3] == 76u8;
    if !is_magic {
        assert(!magic_at(bytes@, pos as int)) by {
            if magic_at(bytes@, pos as int) {
                assert(bytes@.subrange(pos as int, pos + 4)[0] == bytes@[pos as int]);
                assert(bytes@.subrange(pos as int, pos + 4)[1] == bytes@[pos + 1]);
                assert(bytes@.subrange(pos as int, pos + 4)[2] == bytes@[pos + 2]);
                assert(bytes@.subrange(pos as int, pos + 4)[3] == bytes@[pos + 3]);
            }
        }
        return FrameProbe::BadMagic;
    }
    assert(bytes@.subrange(pos as int, pos + 4) =~= wal_magic());
    if remaining < FRAME_HEADER_LEN {
        return FrameProbe::Torn;
    }
    let payload_len = u32_from_le_bytes(slice_subrange(bytes, pos + 13, pos + 17));
    if (remaining as u64) < (FRAME_OVERHEAD as u64) + (payload_len as u64) {
        return FrameProbe::Torn;
    }
    let plen = payload_len as usize;
    let op_type = bytes[pos + 4];
    let seq = u64_from_le_bytes(slice_subrange(bytes, pos + 5, pos + 13));
    let stored_crc = u32_from_le_bytes(
        slice_subrange(bytes, pos + FRAME_HEADER_LEN + plen, pos + FRAME_OVERHEAD + plen),
    );
    FrameProbe::Whole { op_type, seq, payload_len, stored_crc }
}

/// A record as read back from the log, with its payload still encoded.
#[derive(Debug, Clone)]
pub struct RawFrame {
    pub seq: u64,
    pub op_type: u8,
    pub payload: Vec<u8>,
}

/// The abstract content of a frame.
pub struct FrameSpec {
    pub seq: u64,
    pub op_type: u8,
    pub payload: Seq<u8>,
}

impl View for RawFrame {
    type V = FrameSpec;

    open spec fn view(&self) -> FrameSpec {
        FrameSpec { seq: self.seq, op_type: self.op_type, payload: self.payload@ }
    }
}

/// Why a scan of the log stopped.
#[derive(Debug, Clone, Copy, PartialEq, Eq, Structural)]
pub enum ScanEnd {
    /// Every byte belonged to a whole, valid frame.
    Complete,
    /// The log ends inside a frame (an interrupted write); that tail is to be cut off.
    TornTail,
    /// The bytes at `offset` do not start with the magic.
    BadMagic { offset: u64 },
    /// The frame at `offset` is whole but its checksum does not match.
    CrcMismatch { offset: u64, expected: u32, actual: u32 },
}

/// The result of scanning a log.
pub struct ScanSpec {
    pub frames: Seq<FrameSpec>,
    /// Where the last whole, valid frame before the stop ends.
    pub valid_len: nat,
    pub end: ScanEnd,
}

/// Scanning the log from `pos`: whole frames with matching checksums are taken
/// in order until the bytes end, end inside a frame, or a frame is malformed.
pub open spec fn scan_from(bytes: Seq<u8>, pos: int) -> ScanSpec
    decreases bytes.len() - pos,
{
    match probe_at(bytes, pos) {
        FrameProbe::End => ScanSpec { frames: seq![], valid_len: pos as nat, end: ScanEnd::Complete },
        FrameProbe::Torn => ScanSpec { frames: seq![], valid_len: pos as nat, end: ScanEnd::TornTail },
        FrameProbe::BadMagic => ScanSpec {
            frames: seq![],
            valid_len: pos as nat,
            end: ScanEnd::BadMagic { offset: pos as u64 },
        },
        FrameProbe::Whole { op_type, seq, payload_len, stored_crc } => {
            let plen = payload_len as int;
            let actual = crc32_checksum(bytes.subrange(pos, pos + FRAME_HEADER_LEN + plen));
            if stored_crc != actual {
                ScanSpec {
                    frames: seq![],
                    valid_len: pos as nat,
                    end: ScanEnd::CrcMismatch { offset: pos as u64, expected: stored_crc, actual },
                }
            } else {
                let frame = FrameSpec {
                    seq,
                    op_type,
                    payload: bytes.subrange(pos + FRAME_HEADER_LEN, pos + FRAME_HEADER_LEN + plen),
                };
                let rest = scan_from(bytes, pos + FRAME_OVERHEAD + plen);
                ScanSpec { frames: seq![frame] + rest.frames, valid_len: rest.valid_len, end: rest.end }
            }
        },
    }
}

/// The frames of a scan, with the position up to which they are valid and the reason it stopped.
pub struct WalScan {
    pub frames: Vec<RawFrame>,
    pub valid_len: u64,
    pub end: ScanEnd,
}

pub open spec fn frames_view(frames: Seq<RawFrame>) -> Seq<FrameSpec> {
    frames.map_values(|f: RawFrame| f@)
}

impl View for WalScan {
    type V = ScanSpec;

    open spec fn view(&self) -> ScanSpec {
        ScanSpec { frames: frames_view(self.frames@), valid_len: self.valid_len as nat, end: self.end }
    }
}

pub struct WalReader;

impl WalReader {
    /// Scans the bytes of one log file: the frames before the first stop, how many
    /// leading bytes they fill, and the stop itself.
    pub fn scan_frames(bytes: &[u8]) -> (r: WalScan)
        ensures
            r@ == scan_from(bytes@, 0),
    {
        let mut frames: Vec<RawFrame> = Vec::new();
        let mut pos: usize = 0;
        loop
            invariant
                pos <= bytes@.len(),
                scan_from(bytes@, 0).frames == frames_view(frames@) + scan_from(bytes@, pos as int).frames,
                scan_from(bytes@, 0).valid_len == scan_from(bytes@, pos as int).valid_len,
                scan_from(bytes@, 0).end == scan_from(bytes@, pos as int).end,
            decreases bytes@.len() - pos,
        {
            let probe = probe_frame(bytes, pos);
            let ghost here = scan_from(bytes@, pos as int);
            match probe {
                FrameProbe::End => {
                    assert(frames_view(frames@) + here.frames =~= frames_view(frames@));
                    return WalScan { frames, valid_len: pos as u64, end: ScanEnd::Complete };
                },
                FrameProbe::Torn => {
                    assert(frames_view(frames@) + here.frames =~= frames_view(frames@));
                    return WalScan { frames, valid_len: pos as u64, end: ScanEnd::TornTail };
                },
                FrameProbe::BadMagic => {
                    assert(frames_view(frames@) + here.frames =~= frames_view(frames@));
                    return WalScan {
                        frames,
                        valid_len: pos as u64,
                        end: ScanEnd::BadMagic { offset: pos as u64 },
                    };
                },
                FrameProbe::Whole { op_type, seq, payload_len, stored_crc } => {
                    let plen = payload_len as usize;
                    let total = bytes.len();
                    proof {
                        let pl = spec_u32_from_le_bytes(bytes@.subrange(pos + 13, pos + 17));
                        assert(payload_len_at(bytes@, pos as int) == pl as nat);
                        assert(payload_len == pl);
                        assert(bytes@.len() - pos >= FRAME_OVERHEAD + plen);
                    }
                    let actual = crc32(slice_subrange(bytes, pos, pos + FRAME_HEADER_LEN + plen));
                    if stored_crc != actual {
                        assert(frames_view(frames@) + here.frames =~= frames_view(frames@));
                        return WalScan {
                            frames,
                            valid_len: pos as u64,
                            end: ScanEnd::CrcMismatch { offset: pos as u64, expected: stored_crc, actual },
                        };
                    }
                    let payload = slice_to_vec(
                        slice_subrange(bytes, pos + FRAME_HEADER_LEN, pos + FRAME_HEADER_LEN + plen),
                    );
                    let frame = RawFrame { seq, op_type, payload };
                    let ghost old_frames = frames@;
                    frames.push(frame);
                    let next = pos + FRAME_OVERHEAD + plen;
                    proof {
                        let rest = scan_from(bytes@, next as int);
                        assert(here.frames == seq![frame@] + rest.frames);
                        assert(frames_view(frames@) =~= frames_view(old_frames) + seq![frame@]);
                        assert(frames_view(frames@) + rest.frames =~= frames_view(old_frames) + (
                        seq![frame@] + rest.frames));
                    }
                    pos = next;
                },
            }
        }
    }
}


/// A logged operation with its sequence number.
#[derive(Debug, Clone)]
pub struct WalFrame<Op> {
    pub seq: u64,
    pub op: Op,
}

/// The frames are in ascending order of sequence number.
pub open spec fn sorted_by_seq<Op>(frames: Seq<WalFrame<Op>>) -> bool {
    forall|i: int, j: int| 0 <= i <= j < frames.len() ==> frames[i].seq <= frames[j].seq
}

/// The frame carries sequence number `seq`.
pub open spec fn has_seq<Op>(seq: u64) -> spec_fn(WalFrame<Op>) -> bool {
    |f: WalFrame<Op>| f.seq == seq
}

/// The frames that carry sequence number `seq`, in their order.
pub open spec fn with_seq<Op>(frames: Seq<WalFrame<Op>>, seq: u64) -> Seq<WalFrame<Op>> {
    frames.filter(has_seq(seq))
}

proof fn lemma_with_seq_push<Op>(frames: Seq<WalFrame<Op>>, f: WalFrame<Op>, seq: u64)
    ensures
        with_seq(frames.push(f), seq) == if f.seq == seq {
            with_seq(frames, seq).push(f)
        } else {
            with_seq(frames, seq)
        },
{
    frames.lemma_filter_push(f, has_seq(seq));
}

proof fn lemma_with_seq_prepend<Op>(f: WalFrame<Op>, rest: Seq<WalFrame<Op>>, seq: u64)
    ensures
        with_seq(seq![f] + rest, seq) == if f.seq == seq {
            seq![f] + with_seq(rest, seq)
        } else {
            with_seq(rest, seq)
        },
{
    Seq::filter_distributes_over_add(seq![f], rest, has_seq(seq));
    lemma_with_seq_push(Seq::<WalFrame<Op>>::empty(), f, seq);
    assert(Seq::<WalFrame<Op>>::empty().push(f) =~= seq![f]);
    reveal(Seq::filter);
    assert(with_seq(Seq::<WalFrame<Op>>::empty(), seq) =~= Seq::<WalFrame<Op>>::empty());
    if f.seq == seq {
        assert(Seq::<WalFrame<Op>>::empty().push(f) + with_seq(rest, seq) =~= seq![f] + with_seq(rest, seq));
    } else {
        assert(Seq::<WalFrame<Op>>::empty() + with_seq(rest, seq) =~= with_seq(rest, seq));
    }
}

proof fn lemma_with_seq_none_above<Op>(frames: Seq<WalFrame<Op>>, seq: u64)
    requires
        forall|j: int| 0 <= j < frames.len() ==> #[trigger] frames[j].seq < seq,
    ensures
        with_seq(frames, seq) == Seq::<WalFrame<Op>>::empty(),
    decreases frames.len(),
{
    reveal(Seq::filter);
    if frames.len() > 0 {
        lemma_with_seq_none_above(frames.drop_last(), seq);
        assert(frames.drop_last().push(frames.last()) =~= frames);
        lemma_with_seq_push(frames.drop_last(), frames.last(), seq);
        assert(frames[frames.len() - 1].seq < seq);
    } else {
        assert(with_seq(frames, seq) =~= Seq::<WalFrame<Op>>::empty());
    }
}

/// Merges two ascending runs; on equal sequence numbers frames of `a` come first.
fn merge_by_seq<Op>(a: Vec<WalFrame<Op>>, b: Vec<WalFrame<Op>>) -> (r: Vec<WalFrame<Op>>)
    requires
        sorted_by_seq(a@),
        sorted_by_seq(b@),
    ensures
        sorted_by_seq(r@),
        r@.to_multiset() == a@.to_multiset().add(b@.to_multiset()),
        forall|seq: u64| #[trigger] with_seq(r@, seq) == with_seq(a@, seq) + with_seq(b@, seq),
{
    broadcast use vstd::seq_lib::group_to_multiset_ensures;
    broadcast use vstd::multiset::group_multiset_axioms;

    let ghost total = a@.to_multiset().add(b@.to_multiset());
    let ghost a0 = a@;
    let ghost b0 = b@;
    let mut a = a;
    let mut b = b;
    // `desc` collects frames from the largest sequence number down; `tail` is the
    // same frames in ascending order.
    let mut desc: Vec<WalFrame<Op>> = Vec::new();
    let ghost mut tail: Seq<WalFrame<Op>> = Seq::empty();
    proof {
        assert forall|seq: u64| #[trigger] with_seq(a@, seq) + with_seq(b@, seq) + with_seq(tail, seq) == with_seq(
            a0,
            seq,
        ) + with_seq(b0, seq) by {
            reveal(Seq::filter);
            assert(with_seq(tail, seq) =~= Seq::<WalFrame<Op>>::empty());
            assert(with_seq(a@, seq) + with_seq(b@, seq) + with_seq(tail, seq) =~= with_seq(a@, seq) + with_seq(
                b@,
                seq,
            ));
        }
    }
    while a.len() > 0 || b.len() > 0
        invariant
            sorted_by_seq(a@),
            sorted_by_seq(b@),
            forall|i: int, j: int| 0 <= i <= j < desc@.len() ==> desc@[i].seq >= desc@[j].seq,
            forall|i: int, j: int|
                0 <= i < desc@.len() && 0 <= j < a@.len() ==> desc@[i].seq >= a@[j].seq,
            forall|i: int, j: int|
                0 <= i < desc@.len() && 0 <= j < b@.len() ==> desc@[i].seq >= b@[j].seq,
            desc@.to_multiset().add(a@.to_multiset()).add(b@.to_multiset()) == total,
            tail.len() == desc@.len(),
            forall|k: int| 0 <= k < desc@.len() ==> #[trigger] desc@[k] == tail[desc@.len() - 1 - k],
            forall|seq: u64| #[trigger] with_seq(a@, seq) + with_seq(b@, seq) + with_seq(tail, seq) == with_seq(
                a0,
                seq,
            ) + with_seq(b0, seq),
        decreases a@.len() + b@.len(),
    {
        let take_a = if a.len() == 0 {
            false
        } else if b.len() == 0 {
            true
        } else {
            a[a.len() - 1].seq > b[b.len() - 1].seq
        };
        let ghost old_a = a@;
        let ghost old_b = b@;
        let ghost old_desc = desc@;
        let ghost old_tail = tail;
        if take_a {
            let f = a.pop().unwrap();
            proof {
                assert(old_a =~= a@.push(f));
            }
            desc.push(f);
            proof {
                tail = seq![f] + old_tail;
                assert(desc@ =~= old_desc.push(f));
                vstd::seq_lib::to_multiset_build(old_desc, f);
                vstd::seq_lib::to_multiset_build(a@, f);
                assert(desc@.to_multiset().add(a@.to_multiset()).add(b@.to_multiset()) =~= old_desc.to_multiset().add(
                old_a.to_multiset()).add(b@.to_multiset()));
                assert forall|seq: u64| #[trigger] with_seq(a@, seq) + with_seq(b@, seq) + with_seq(tail, seq)
                    == with_seq(a0, seq) + with_seq(b0, seq) by {
                    lemma_with_seq_push(a@, f, seq);
                    lemma_with_seq_prepend(f, old_tail, seq);
                    assert(with_seq(old_a, seq) + with_seq(b@, seq) + with_seq(old_tail, seq) == with_seq(a0, seq)
                        + with_seq(b0, seq));
                    if f.seq == seq {
                        if b@.len() > 0 {
                            assert forall|j: int| 0 <= j < b@.len() implies #[trigger] b@[j].seq < seq by {
                                assert(b@[j].seq <= b@[b@.len() - 1].seq);
                            }
                        }
                        lemma_with_seq_none_above(b@, seq);
                        assert(with_seq(a@, seq) + with_seq(b@, seq) + with_seq(tail, seq) =~= with_seq(old_a, seq)
                            + with_seq(b@, seq) + with_seq(old_tail, seq));
                    }
                }
            }
        } else {
            let f = b.pop().unwrap();
            proof {
                assert(old_b =~= b@.push(f));
            }
            desc.push(f);
            proof {
                tail = seq![f] + old_tail;
                assert(desc@ =~= old_desc.push(f));
                vstd::seq_lib::to_multiset_build(old_desc, f);
                vstd::seq_lib::to_multiset_build(b@, f);
                assert(desc@.to_multiset().add(a@.to_multiset()).add(b@.to_multiset()) =~= old_desc.to_multiset().add(
                a@.to_multiset()).add(old_b.to_multiset()));
                assert forall|seq: u64| #[trigger] with_seq(a@, seq) + with_seq(b@, seq) + with_seq(tail, seq)
                    == with_seq(a0, seq) + with_seq(b0, seq) by {
                    lemma_with_seq_push(b@, f, seq);
                    lemma_with_seq_prepend(f, old_tail, seq);
                    assert(with_seq(a@, seq) + with_seq(old_b, seq) + with_seq(old_tail, seq) == with_seq(a0, seq)
                        + with_seq(b0, seq));
                    if f.seq == seq {
                        assert(with_seq(a@, seq) + with_seq(b@, seq) + with_seq(tail, seq) =~= with_seq(a@, seq)
                            + with_seq(old_b, seq) + with_seq(old_tail, seq));
                    } else {
                        assert(with_seq(a@, seq) + with_seq(b@, seq) + with_seq(tail, seq) =~= with_seq(a@, seq)
                            + with_seq(old_b, seq) + with_seq(old_tail, seq));
                    }
                }
            }
        }
        proof {
            assert(desc@ == old_desc.push(desc@.last()));
            assert(forall|j: int| 0 <= j < old_a.len() ==> #[trigger] old_a[j].seq <= old_a[old_a.len() - 1].seq);
            assert(forall|j: int| 0 <= j < old_b.len() ==> #[trigger] old_b[j].seq <= old_b[old_b.len() - 1].seq);
            assert forall|k: int| 0 <= k < desc@.len() implies #[trigger] desc@[k] == tail[desc@.len() - 1 - k] by {
                if k < old_desc.len() {
                    assert(desc@[k] == old_desc[k]);
                }
            }
        }
    }
    proof {
        assert forall|seq: u64| #[trigger] with_seq(tail, seq) == with_seq(a0, seq) + with_seq(b0, seq) by {
            reveal(Seq::filter);
            assert(with_seq(a@, seq) =~= Seq::<WalFrame<Op>>::empty());
            assert(with_seq(b@, seq) =~= Seq::<WalFrame<Op>>::empty());
            assert(with_seq(a@, seq) + with_seq(b@, seq) + with_seq(tail, seq) =~= with_seq(tail, seq));
        }
    }
    // Reverse into ascending order.
    let mut out: Vec<WalFrame<Op>> = Vec::new();
    while desc.len() > 0
        invariant
            forall|i: int, j: int| 0 <= i <= j < desc@.len() ==> desc@[i].seq >= desc@[j].seq,
            sorted_by_seq(out@),
            forall|i: int, j: int|
                0 <= i < out@.len() && 0 <= j < desc@.len() ==> out@[i].seq <= desc@[j].seq,
            out@.to_multiset().add(desc@.to_multiset()) == total,
            out@.len() + desc@.len() == tail.len(),
            forall|k: int| 0 <= k < out@.len() ==> #[trigger] out@[k] == tail[k],
            forall|k: int| 0 <= k < desc@.len() ==> #[trigger] desc@[k] == tail[tail.len() - 1 - k],
        decreases desc@.len(),
    {
        let ghost old_desc = desc@;
        let ghost old_out = out@;
        let f = desc.pop().unwrap();
        proof {
            assert(old_desc =~= desc@.push(f));
            assert(f == old_desc[old_desc.len() - 1]);
        }
        out.push(f);
        proof {
            assert(out@ =~= old_out.push(f));
            vstd::seq_lib::to_multiset_build(old_out, f);
            vstd::seq_lib::to_multiset_build(desc@, f);
            assert(out@.to_multiset().add(desc@.to_multiset()) =~= old_out.to_multiset().add(
            old_desc.to_multiset()));
            assert forall|k: int| 0 <= k < desc@.len() implies #[trigger] desc@[k] == tail[tail.len() - 1 - k] by {
                assert(desc@[k] == old_desc[k]);
            }
        }
    }
    proof {
        assert(out@ =~= tail);
    }
    out
}

impl WalReader {
    /// Orders frames gathered from several log files by sequence number;
    /// frames with the same sequence number keep their order.
    pub fn order_frames<Op>(frames: Vec<WalFrame<Op>>) -> (r: Vec<WalFrame<Op>>)
        ensures
            sorted_by_seq(r@),
            r@.to_multiset() == frames@.to_multiset(),
            forall|seq: u64| #[trigger] with_seq(r@, seq) == with_seq(frames@, seq),
        decreases frames@.len(),
    {
        broadcast use vstd::seq_lib::group_to_multiset_ensures;

        let n = frames.len();
        if n <= 1 {
            return frames;
        }
        let mut left = frames;
        let right = left.split_off(n / 2);
        proof {
            vstd::seq_lib::lemma_multiset_commutative(left@, right@);
            assert(frames@ =~= left@ + right@);
        }
        let left_sorted = Self::order_frames(left);
        let right_sorted = Self::order_frames(right);
        let r = merge_by_seq(left_sorted, right_sorted);
        proof {
            assert forall|seq: u64| #[trigger] with_seq(r@, seq) == with_seq(frames@, seq) by {
                Seq::filter_distributes_over_add(left@, right@, has_seq(seq));
            }
        }
        r
    }
}
} // verus!
