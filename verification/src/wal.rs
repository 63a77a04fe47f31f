//! The single-file write-ahead log: one log file, no segmenting and no
//! rollover. The segmented log grew out of it; it remains for logs that are
//! happy with one file. The file's bytes are owned in memory: the caller
//! brings them in at open and carries them back to disk after writes.

use vstd::bytes::*;
use vstd::prelude::*;
use vstd::slice::*;

verus! {

use crate::codec::{fits_frame, WalEntry, WalEntryModel};
use crate::frame::{
    buf_clean,
    frames_of,
    lemma_frames_append,
    parse_frame_at,
    spec_frame_bytes,
    FrameModel,
    FrameParse,
    WalFrame,
    GENERATION,
};
use crate::kv_store::entries_of;
use crate::segment::WalEntryWithHeader;
use crate::segmented_log::written_frame;
use crate::WalError;

/// Configuration of a single-file log: the log file's path, and whether to
/// discard its contents on open.
#[derive(Debug)]
pub struct WALConfig {
    pub path: String,
    pub truncate: bool,
}

/// A write-ahead log over one file.
#[derive(Debug)]
pub struct WriteAheadLog {
    pub cfg: WALConfig,
    pub data: Vec<u8>,
    pub read_pos: usize,
    pub last_log_index: u64,
}

impl WriteAheadLog {
    /// The whole frames the log holds.
    pub open spec fn frames(&self) -> Seq<FrameModel> {
        frames_of(self.data@)
    }

    /// Whether the log's bytes are exactly whole frames.
    pub open spec fn clean(&self) -> bool {
        buf_clean(self.data@)
    }

    /// The read cursor stays inside the bytes.
    pub open spec fn wf(&self) -> bool {
        self.read_pos <= self.data@.len()
    }

    /// Opens the log over the file's current bytes; with `cfg.truncate` the
    /// bytes are discarded and the log starts empty.
    pub fn open(cfg: WALConfig, contents: Vec<u8>) -> (w: WriteAheadLog)
        ensures
            w.wf(),
            w.cfg == cfg,
            w.last_log_index == 0,
            w.read_pos == 0,
            w.data@ == if cfg.truncate {
                Seq::<u8>::empty()
            } else {
                contents@
            },
    {
        let data = if cfg.truncate {
            Vec::new()
        } else {
            contents
        };
        WriteAheadLog { cfg, data, read_pos: 0, last_log_index: 0 }
    }

    /// Appends one entry as a frame carrying the next log index: header
    /// first — index, generation, payload length — then the encoded entry.
    /// A failed encoding changes nothing.
    pub fn write(&mut self, cmd: WalEntry) -> (r: Result<(), WalError>)
        requires
            old(self).wf(),
            old(self).last_log_index < u64::MAX,
        ensures
            final(self).wf(),
            final(self).cfg == old(self).cfg,
            final(self).read_pos == old(self).read_pos,
            match r {
                Ok(()) => {
                    &&& fits_frame(cmd@)
                    &&& final(self).last_log_index == old(self).last_log_index + 1
                    &&& final(self).data@ == old(self).data@ + spec_frame_bytes(
                        written_frame(old(self).last_log_index, cmd@),
                    )
                    &&& (old(self).clean() ==> final(self).clean() && final(self).frames() == old(
                        self,
                    ).frames().push(written_frame(old(self).last_log_index, cmd@)))
                },
                Err(e) => {
                    &&& e == WalError::Serialization
                    &&& !fits_frame(cmd@)
                    &&& final(self).last_log_index == old(self).last_log_index
                    &&& final(self).data@ == old(self).data@
                },
            },
    {
        let index = self.last_log_index + 1;
        let entry = WalEntryWithHeader { index, generation: GENERATION, entry: cmd };
        let mut bytes = match entry.to_le_bytes() {
            Ok(b) => b,
            Err(e) => {
                return Err(e);
            },
        };
        proof {
            if old(self).clean() {
                lemma_frames_append(
                    old(self).data@,
                    written_frame(old(self).last_log_index, cmd@),
                );
            }
        }
        self.data.append(&mut bytes);
        self.last_log_index = index;
        Ok(())
    }

    /// Reads the frame at the cursor, advancing past it, and keeps the index
    /// counter no lower than any index seen. `Ok(None)` at a clean end of
    /// the file; an error when a header or payload is cut short.
    pub fn read_next(&mut self) -> (r: Result<Option<WalFrame>, WalError>)
        requires
            old(self).wf(),
        ensures
            final(self).wf(),
            final(self).data@ == old(self).data@,
            final(self).cfg == old(self).cfg,
            match r {
                Ok(Some(f)) => {
                    &&& parse_frame_at(old(self).data@, old(self).read_pos as int) == (
                    FrameParse::Frame { frame: f@, end: final(self).read_pos as int })
                    &&& final(self).last_log_index == (if f.index > old(self).last_log_index {
                        f.index
                    } else {
                        old(self).last_log_index
                    })
                },
                Ok(None) => {
                    &&& parse_frame_at(old(self).data@, old(self).read_pos as int)
                        is CleanEnd
                    &&& final(self).read_pos == old(self).read_pos
                    &&& final(self).last_log_index == old(self).last_log_index
                },
                Err(e) => {
                    &&& e == WalError::TruncatedTail
                    &&& parse_frame_at(old(self).data@, old(self).read_pos as int)
                        is Truncated
                    &&& final(self).read_pos == old(self).read_pos
                    &&& final(self).last_log_index == old(self).last_log_index
                },
            },
    {
        let len = self.data.len();
        let p = self.read_pos;
        if p == len {
            return Ok(None);
        }
        if len - p < 20 {
            return Err(WalError::TruncatedTail);
        }
        let sl = self.data.as_slice();
        let index = u64_from_le_bytes(slice_subrange(sl, p, p + 8));
        let generation = u64_from_le_bytes(slice_subrange(sl, p + 8, p + 16));
        let n = u32_from_le_bytes(slice_subrange(sl, p + 16, p + 20)) as usize;
        if len - p - 20 < n {
            return Err(WalError::TruncatedTail);
        }
        let buf = slice_to_vec(slice_subrange(sl, p + 20, p + 20 + n));
        self.read_pos = p + 20 + n;
        if index > self.last_log_index {
            self.last_log_index = index;
        }
        Ok(Some(WalFrame { index, generation, buf }))
    }

    /// Rewinds and decodes the whole log into owned entries, one result per
    /// frame. On a log of whole, decodable frames the result is exactly the
    /// log's entries in append order; a decode failure is recorded in place
    /// and reading goes on behind it, while a truncated tail is recorded and
    /// ends the pass.
    pub fn read(&mut self) -> (out: Vec<Result<WalEntry, WalError>>)
        requires
            old(self).wf(),
        ensures
            final(self).wf(),
            final(self).data@ == old(self).data@,
            final(self).cfg == old(self).cfg,
            (old(self).clean() && entries_of(old(self).frames()) is Some) ==> {
                let es = entries_of(old(self).frames())->Some_0;
                &&& out@.len() == es.len()
                &&& forall|i: int|
                    0 <= i < es.len() ==> (#[trigger] out@[i]) is Ok && out@[i]->Ok_0@ == es[i]
            },
    {
        self.read_pos = 0;
        let ghost frames = frames_of(self.data@);
        let ghost mut consumed: Seq<FrameModel> = Seq::empty();
        let mut out: Vec<Result<WalEntry, WalError>> = Vec::new();
        loop
            invariant
                self.wf(),
                self.data@ == old(self).data@,
                self.cfg == old(self).cfg,
                frames == frames_of(self.data@),
                consumed + parse_tail(self.data@, self.read_pos as int).0 == frames,
                parse_tail(self.data@, 0).1 ==> parse_tail(self.data@, self.read_pos as int).1,
                out@.len() == consumed.len(),
                (entries_of(consumed) is Some) ==> forall|i: int|
                    0 <= i < consumed.len() ==> (#[trigger] out@[i]) is Ok && out@[i]->Ok_0@
                        == entries_of(consumed)->Some_0[i],
            ensures
                self.wf(),
                self.data@ == old(self).data@,
                self.cfg == old(self).cfg,
                (old(self).clean() && entries_of(frames) is Some) ==> out@.len() == frames.len()
                    && (forall|i: int|
                    0 <= i < frames.len() ==> (#[trigger] out@[i]) is Ok && out@[i]->Ok_0@
                        == entries_of(frames)->Some_0[i]),
            decreases self.data@.len() - self.read_pos,
        {
            let ghost rem0 = parse_tail(self.data@, self.read_pos as int);
            let frame = match self.read_next() {
                Ok(Some(frame)) => frame,
                Ok(None) => {
                    proof {
                        assert(consumed =~= frames);
                        crate::kv_store::lemma_entries_of_len(frames);
                    }
                    break ;
                },
                Err(e) => {
                    proof {
                        if old(self).clean() {
                            assert(parse_tail(self.data@, 0).1);
                            assert(!parse_tail(self.data@, self.read_pos as int).1);
                            assert(false);
                        }
                    }
                    out.push(Err(e));
                    return out;
                },
            };
            let ghost fm = frame@;
            proof {
                assert(rem0.0 == seq![fm] + parse_tail(self.data@, self.read_pos as int).0);
                assert(rem0.1 == parse_tail(self.data@, self.read_pos as int).1);
                assert(consumed.push(fm) + parse_tail(self.data@, self.read_pos as int).0
                    =~= consumed + rem0.0);
                assert(consumed.push(fm).drop_last() =~= consumed);
            }
            let ghost consumed0 = consumed;
            proof {
                consumed = consumed.push(fm);
            }
            match WalEntry::deserialize(frame.buf.as_slice()) {
                Ok(e) => {
                    let ghost ev = e@;
                    out.push(Ok(e));
                    proof {
                        if entries_of(consumed) is Some {
                            crate::kv_store::lemma_entries_of_len(consumed);
                            crate::kv_store::lemma_entries_of_len(consumed0);
                            let es = entries_of(consumed)->Some_0;
                            let esp = entries_of(consumed0)->Some_0;
                            assert(es == esp.push(ev));
                            assert forall|i: int|
                                0 <= i < consumed.len() implies (#[trigger] out@[i]) is Ok
                                && out@[i]->Ok_0@ == es[i] by {
                                if i < consumed0.len() {
                                    assert(out@[i] is Ok && out@[i]->Ok_0@ == esp[i]);
                                    assert(es[i] == esp[i]);
                                } else {
                                    assert(out@[i]->Ok_0@ == ev);
                                    assert(es[i] == ev);
                                }
                            }
                        }
                    }
                },
                Err(de) => {
                    out.push(Err(de));
                    proof {
                        assert(entries_of(consumed) is None);
                    }
                },
            }
        }
        proof {
            crate::kv_store::lemma_entries_of_len(frames);
        }
        out
    }
}

/// The frames and cleanliness of the bytes from `pos` on.
pub open spec fn parse_tail(b: Seq<u8>, pos: int) -> (Seq<FrameModel>, bool) {
    crate::frame::parse_frames_at(b, pos)
}

} // verus!
