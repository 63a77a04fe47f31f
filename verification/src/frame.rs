//! Frame layout: every record on disk is a fixed-size header — log index,
//! generation, payload length, all little-endian — followed by the payload
//! bytes of one encoded entry.

use vstd::bytes::*;
use vstd::prelude::*;

verus! {

use crate::codec::{spec_decode, spec_encode, fits_frame, WalEntry, WalEntryView};
use crate::WalError;

/// Number of bytes of a frame header.
pub const HEADER_LEN: usize = 20;

/// The generation marker written into every frame: a reserved epoch field
/// for a future compaction scheme, always zero today.
pub const GENERATION: u64 = 0;

/// The mathematical content of one frame: header fields and payload bytes.
pub struct FrameModel {
    pub index: u64,
    pub generation: u64,
    pub payload: Seq<u8>,
}

/// A frame read back from a segment, owning its payload buffer.
#[derive(Debug)]
pub struct WalFrame {
    pub index: u64,
    pub generation: u64,
    pub buf: Vec<u8>,
}

impl View for WalFrame {
    type V = FrameModel;

    open spec fn view(&self) -> FrameModel {
        FrameModel { index: self.index, generation: self.generation, payload: self.buf@ }
    }
}

impl WalFrame {
    /// Read-only projection of the frame's entry, borrowed from its payload.
    pub fn zero_copy<'a>(&'a self) -> (r: Result<WalEntryView<'a>, WalError>)
        ensures
            match r {
                Ok(v) => spec_decode(self.buf@) == Some(v@),
                Err(e) => e == WalError::Deserialization && spec_decode(self.buf@) is None,
            },
    {
        WalEntry::zero_copy(self.buf.as_slice())
    }
}

/// A frame can be written only if its payload length fits the header's
/// 32-bit length field.
pub open spec fn frame_fits(f: FrameModel) -> bool {
    f.payload.len() <= u32::MAX
}

/// The bytes of a frame header.
pub open spec fn spec_header_bytes(index: u64, generation: u64, len: u32) -> Seq<u8> {
    spec_u64_to_le_bytes(index) + spec_u64_to_le_bytes(generation) + spec_u32_to_le_bytes(len)
}

/// The on-disk bytes of a whole frame.
pub open spec fn spec_frame_bytes(f: FrameModel) -> Seq<u8> {
    spec_header_bytes(f.index, f.generation, f.payload.len() as u32) + f.payload
}

/// The outcome of reading one frame at a byte position.
pub enum FrameParse {
    /// A whole frame lies at the position; `end` is the position behind it.
    Frame { frame: FrameModel, end: int },
    /// The position is exactly the end of the bytes.
    CleanEnd,
    /// A header or payload is cut short: the mark of an unfinished write.
    Truncated,
}

/// Parses the frame starting at `pos`.
pub open spec fn parse_frame_at(b: Seq<u8>, pos: int) -> FrameParse {
    if pos == b.len() {
        FrameParse::CleanEnd
    } else if !(0 <= pos && pos <= b.len()) {
        FrameParse::Truncated
    } else if pos + 20 > b.len() {
        FrameParse::Truncated
    } else {
        let index = spec_u64_from_le_bytes(b.subrange(pos, pos + 8));
        let generation = spec_u64_from_le_bytes(b.subrange(pos + 8, pos + 16));
        let n = spec_u32_from_le_bytes(b.subrange(pos + 16, pos + 20)) as int;
        if pos + 20 + n > b.len() {
            FrameParse::Truncated
        } else {
            FrameParse::Frame {
                frame: FrameModel {
                    index,
                    generation,
                    payload: b.subrange(pos + 20, pos + 20 + n),
                },
                end: pos + 20 + n,
            }
        }
    }
}

/// All frames parseable from `pos` on, with `true` when parsing ended exactly
/// at the end of the bytes and `false` on a truncated tail.
pub open spec fn parse_frames_at(b: Seq<u8>, pos: int) -> (Seq<FrameModel>, bool)
    decreases b.len() - pos,
{
    match parse_frame_at(b, pos) {
        FrameParse::CleanEnd => (Seq::empty(), true),
        FrameParse::Truncated => (Seq::empty(), false),
        FrameParse::Frame { frame, end } => if pos < end <= b.len() {
            let rec = parse_frames_at(b, end);
            (seq![frame] + rec.0, rec.1)
        } else {
            (Seq::empty(), false)
        },
    }
}

/// The sequence of whole frames held in a byte buffer.
pub open spec fn frames_of(b: Seq<u8>) -> Seq<FrameModel> {
    parse_frames_at(b, 0).0
}

/// A buffer is clean when it is exactly a sequence of whole frames, with no
/// truncated tail.
pub open spec fn buf_clean(b: Seq<u8>) -> bool {
    parse_frames_at(b, 0).1
}

/// A frame's bytes embedded at `pos` parse back to that frame.
pub proof fn lemma_parse_frame_encode(b: Seq<u8>, pos: int, f: FrameModel)
    requires
        frame_fits(f),
        0 <= pos,
        pos + spec_frame_bytes(f).len() <= b.len(),
        b.subrange(pos, pos + spec_frame_bytes(f).len()) == spec_frame_bytes(f),
    ensures
        parse_frame_at(b, pos) == (FrameParse::Frame {
            frame: f,
            end: pos + spec_frame_bytes(f).len(),
        }),
{
    lemma_auto_spec_u64_to_from_le_bytes();
    lemma_auto_spec_u32_to_from_le_bytes();
    let fb = spec_frame_bytes(f);
    let n = f.payload.len() as int;
    assert(fb.len() == 20 + n);
    assert(b.subrange(pos, pos + 8) =~= fb.subrange(0, 8));
    assert(fb.subrange(0, 8) =~= spec_u64_to_le_bytes(f.index));
    assert(b.subrange(pos + 8, pos + 16) =~= fb.subrange(8, 16));
    assert(fb.subrange(8, 16) =~= spec_u64_to_le_bytes(f.generation));
    assert(b.subrange(pos + 16, pos + 20) =~= fb.subrange(16, 20));
    assert(fb.subrange(16, 20) =~= spec_u32_to_le_bytes(f.payload.len() as u32));
    assert(b.subrange(pos + 20, pos + 20 + n) =~= fb.subrange(20, 20 + n));
    assert(fb.subrange(20, 20 + n) =~= f.payload);
}

/// Extending clean bytes on the right leaves the frames already there in
/// place; parsing continues into the extension.
pub proof fn lemma_parse_frames_concat(a: Seq<u8>, ext: Seq<u8>, pos: int)
    requires
        0 <= pos <= a.len(),
        parse_frames_at(a, pos).1,
    ensures
        parse_frames_at(a + ext, pos).0 == parse_frames_at(a, pos).0 + parse_frames_at(
            a + ext,
            a.len() as int,
        ).0,
        parse_frames_at(a + ext, pos).1 == parse_frames_at(a + ext, a.len() as int).1,
    decreases a.len() - pos,
{
    let t = a + ext;
    match parse_frame_at(a, pos) {
        FrameParse::CleanEnd => {
            assert(pos == a.len());
            assert(parse_frames_at(a, pos).0 =~= Seq::<FrameModel>::empty());
            assert(parse_frames_at(a, pos).0 + parse_frames_at(t, a.len() as int).0
                =~= parse_frames_at(t, a.len() as int).0);
        },
        FrameParse::Truncated => {
            assert(false);
        },
        FrameParse::Frame { frame, end } => {
            assert(pos < end <= a.len());
            assert(t.subrange(pos, pos + 8) =~= a.subrange(pos, pos + 8));
            assert(t.subrange(pos + 8, pos + 16) =~= a.subrange(pos + 8, pos + 16));
            assert(t.subrange(pos + 16, pos + 20) =~= a.subrange(pos + 16, pos + 20));
            assert(t.subrange(pos + 20, end) =~= a.subrange(pos + 20, end));
            assert(parse_frame_at(t, pos) == (FrameParse::Frame { frame, end }));
            lemma_parse_frames_concat(a, ext, end);
            assert(seq![frame] + (parse_frames_at(a, end).0 + parse_frames_at(
                t,
                a.len() as int,
            ).0) =~= (seq![frame] + parse_frames_at(a, end).0) + parse_frames_at(
                t,
                a.len() as int,
            ).0);
        },
    }
}

/// Appending one whole frame to clean bytes appends exactly that frame to
/// the parsed sequence and keeps the bytes clean.
pub proof fn lemma_frames_append(a: Seq<u8>, f: FrameModel)
    requires
        buf_clean(a),
        frame_fits(f),
    ensures
        frames_of(a + spec_frame_bytes(f)) == frames_of(a).push(f),
        buf_clean(a + spec_frame_bytes(f)),
{
    let fb = spec_frame_bytes(f);
    let t = a + fb;
    assert(t.subrange(a.len() as int, a.len() + fb.len() as int) =~= fb);
    lemma_parse_frame_encode(t, a.len() as int, f);
    assert(parse_frames_at(t, a.len() + fb.len() as int).0 =~= Seq::<FrameModel>::empty());
    assert(parse_frames_at(t, a.len() as int).0 =~= seq![f]);
    assert(parse_frames_at(t, a.len() as int).1);
    lemma_parse_frames_concat(a, fb, 0);
    assert(frames_of(a) + seq![f] =~= frames_of(a).push(f));
}

} // verus!
