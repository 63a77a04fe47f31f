//! Segment: one file of the log. A segment owns its bytes, knows the log
//! index its first frame carries, and supports appending framed entries and
//! reading them back in order.

use vstd::bytes::*;
use vstd::prelude::*;
use vstd::slice::*;

verus! {

use crate::codec::{fits_frame, spec_encode, WalEntry};
use crate::frame::{
    frame_fits,
    frames_of,
    buf_clean,
    parse_frame_at,
    spec_frame_bytes,
    FrameModel,
    FrameParse,
    WalFrame,
};
use crate::names::{file_name, spec_segment_name, start_offset_from_file_name};
use crate::{NamedFile, WalError};

/// An entry paired with the header fields of the frame that will carry it.
pub struct WalEntryWithHeader {
    pub index: u64,
    pub generation: u64,
    pub entry: WalEntry,
}

impl WalEntryWithHeader {
    /// The frame this pairing describes once the entry is encoded.
    pub open spec fn frame_model(&self) -> FrameModel {
        FrameModel {
            index: self.index,
            generation: self.generation,
            payload: spec_encode(self.entry@),
        }
    }

    /// Lays the whole frame out as bytes: index, generation and payload
    /// length little-endian, then the encoded entry.
    pub fn to_le_bytes(self) -> (r: Result<Vec<u8>, WalError>)
        ensures
            match r {
                Ok(b) => b@ == spec_frame_bytes(self.frame_model()) && frame_fits(
                    self.frame_model(),
                ),
                Err(e) => e == WalError::Serialization && !frame_fits(self.frame_model()),
            },
    {
        let payload = match self.entry.serialize() {
            Ok(p) => p,
            Err(e) => {
                return Err(e);
            },
        };
        let mut buf = u64_to_le_bytes(self.index);
        let mut g = u64_to_le_bytes(self.generation);
        buf.append(&mut g);
        let mut l = u32_to_le_bytes(payload.len() as u32);
        buf.append(&mut l);
        let mut payload = payload;
        buf.append(&mut payload);
        proof {
            assert(buf@ =~= spec_frame_bytes(self.frame_model()));
        }
        Ok(buf)
    }
}

/// One segment file: its start index, its file name, and its bytes.
#[derive(Debug)]
pub struct WalSegment {
    pub start_index: u64,
    pub name: String,
    pub data: Vec<u8>,
}

impl WalSegment {
    /// A segment belongs to log `prefix` when its name is the segment name
    /// built from its own start index.
    pub open spec fn wf(&self, prefix: Seq<char>) -> bool {
        self.name@ == spec_segment_name(prefix, self.start_index)
    }

    /// The whole frames held in the segment's bytes.
    pub open spec fn frames(&self) -> Seq<FrameModel> {
        frames_of(self.data@)
    }

    /// Whether the segment's bytes are exactly whole frames, with no
    /// truncated tail.
    pub open spec fn clean(&self) -> bool {
        buf_clean(self.data@)
    }

    /// Creates a new, empty segment named for `start_index`.
    pub fn new(prefix: &str, start_index: u64) -> (s: Self)
        ensures
            s.start_index == start_index,
            s.wf(prefix@),
            s.data@ == Seq::<u8>::empty(),
    {
        let name = file_name(prefix, start_index);
        WalSegment { start_index, name, data: Vec::new() }
    }

    /// Opens a directory entry as a segment of log `prefix`, reading the
    /// start index out of the file name. `Ok(None)` when the name is not a
    /// segment name of this log; an error when it has the segment shape but
    /// no canonical index.
    pub fn open(file: NamedFile, prefix: &str) -> (r: Result<Option<WalSegment>, WalError>)
        ensures
            match r {
                Ok(Some(s)) => s.wf(prefix@) && s.name@ == file.name@ && s.data@ == file.data@
                    && file.name@ == spec_segment_name(prefix@, s.start_index),
                Ok(None) => !crate::names::matches_shape(prefix@, file.name@) && (forall|i: u64|
                    file.name@ != spec_segment_name(prefix@, i)),
                Err(e) => e == WalError::BadSegmentName && crate::names::matches_shape(
                    prefix@,
                    file.name@,
                ) && (forall|i: u64| file.name@ != spec_segment_name(prefix@, i)),
            },
    {
        let parsed = match start_offset_from_file_name(file.name.as_str(), prefix) {
            Ok(p) => p,
            Err(e) => {
                return Err(e);
            },
        };
        match parsed {
            Some(start_index) => Ok(
                Some(WalSegment { start_index, name: file.name, data: file.data }),
            ),
            None => Ok(None),
        }
    }

    /// Current size of the segment in bytes.
    pub fn size(&self) -> (n: u64)
        ensures
            n == self.data@.len(),
    {
        self.data.len() as u64
    }

    /// Appends one framed entry to the end of the segment.
    pub fn write_entry(&mut self, entry: WalEntryWithHeader) -> (r: Result<(), WalError>)
        ensures
            final(self).start_index == old(self).start_index,
            final(self).name == old(self).name,
            match r {
                Ok(()) => frame_fits(entry.frame_model()) && final(self).data@ == old(self).data@
                    + spec_frame_bytes(entry.frame_model()),
                Err(e) => e == WalError::Serialization && !frame_fits(entry.frame_model())
                    && final(self).data@ == old(self).data@,
            },
    {
        let mut bytes = match entry.to_le_bytes() {
            Ok(b) => b,
            Err(e) => {
                return Err(e);
            },
        };
        self.data.append(&mut bytes);
        Ok(())
    }

    /// Reads the frame at byte position `pos`, advancing `pos` past it.
    /// `Ok(None)` at a clean end of the segment; an error when a header or
    /// payload is cut short.
    pub fn read_next(&self, pos: &mut usize) -> (r: Result<Option<WalFrame>, WalError>)
        requires
            *old(pos) <= self.data@.len(),
        ensures
            match r {
                Ok(Some(f)) => parse_frame_at(self.data@, *old(pos) as int) == (FrameParse::Frame {
                    frame: f@,
                    end: *final(pos) as int,
                }) && *old(pos) < *final(pos) <= self.data@.len(),
                Ok(None) => parse_frame_at(self.data@, *old(pos) as int) is CleanEnd && *final(pos)
                    == *old(pos),
                Err(e) => e == WalError::TruncatedTail && parse_frame_at(
                    self.data@,
                    *old(pos) as int,
                ) is Truncated && *final(pos) == *old(pos),
            },
    {
        let len = self.data.len();
        let p = *pos;
        if p == len {
            return Ok(None);
        }
        if len - p < 20 {
            return Err(WalError::TruncatedTail);
        }
        let sl = self.data.as_slice();
        let index = u64_from_le_bytes(slice_subrange(sl, p, p + 8));
        let generation = u64_from_le_bytes(slice_subrange(sl, p + 8, p + 16));
        let n = u32_from_le_bytes(slice_subrange(sl, p + 16, p + 20)) as usize;
        if len - p - 20 < n {
            return Err(WalError::TruncatedTail);
        }
        let buf = slice_to_vec(slice_subrange(sl, p + 20, p + 20 + n));
        *pos = p + 20 + n;
        Ok(Some(WalFrame { index, generation, buf }))
    }
}

} // verus!
