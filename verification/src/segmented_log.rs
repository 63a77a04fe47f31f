//! The segmented write-ahead log façade: assigns monotonically increasing
//! log indices, rolls to a new segment when the open one reaches the size
//! threshold, and reads frames back across all segments in start-index
//! order.

use vstd::prelude::*;

verus! {

use crate::codec::{fits_frame, spec_encode, WalEntry};
use crate::frame::{parse_frames_at, spec_frame_bytes, FrameModel, WalFrame, GENERATION};
use crate::names::{lemma_segment_name_injective, spec_segment_name};
use crate::segment::{WalEntryWithHeader, WalSegment};
use crate::{NamedFile, WalError};

/// Configuration of a segmented log: the path prefix its segment files are
/// named under, whether to discard existing segments on open, the start
/// index a fresh log's first segment is named for, and the size in bytes at
/// which the open segment rolls over.
#[derive(Debug)]
pub struct WALConfig {
    pub path: String,
    pub truncate: bool,
    pub start_index: u64,
    pub max_log_size: u64,
}

/// The frames ahead of a cursor standing at byte `pos` of segment `i`: the
/// rest of that segment, then every later segment from its start. Reading
/// stops at the first truncated tail.
pub open spec fn rem_frames(segs: Seq<WalSegment>, i: int, pos: int) -> Seq<FrameModel>
    decreases segs.len() - i,
{
    if i < 0 || i >= segs.len() {
        Seq::empty()
    } else {
        let head = parse_frames_at(segs[i].data@, pos);
        if i == segs.len() - 1 {
            head.0
        } else if head.1 {
            head.0 + rem_frames(segs, i + 1, 0)
        } else {
            head.0
        }
    }
}

/// No truncated tail stands ahead of the cursor before the final segment.
/// A truncated tail on the final segment is the crash point: recovery stops
/// there cleanly, so it does not count against the cursor.
pub open spec fn rem_ok(segs: Seq<WalSegment>, i: int, pos: int) -> bool
    decreases segs.len() - i,
{
    if i < 0 || i >= segs.len() - 1 {
        true
    } else {
        parse_frames_at(segs[i].data@, pos).1 && rem_ok(segs, i + 1, 0)
    }
}

/// `name` is the segment name of `prefix` for some index.
pub open spec fn is_seg_name(prefix: Seq<char>, name: Seq<char>) -> bool {
    exists|i: u64| name == spec_segment_name(prefix, i)
}

/// A segment carries exactly the name and bytes of a directory entry.
#[verifier::opaque]
pub open spec fn seg_matches(seg: WalSegment, f: NamedFile) -> bool {
    seg.name@ == f.name@ && seg.data@ == f.data@
}

/// Establishes `seg_matches` from the two field equalities.
pub proof fn lemma_seg_matches_intro(seg: WalSegment, f: NamedFile)
    requires
        seg.name@ == f.name@,
        seg.data@ == f.data@,
    ensures
        seg_matches(seg, f),
{
    reveal(seg_matches);
}

/// Recovers the two field equalities from `seg_matches`.
pub proof fn lemma_seg_matches_elim(seg: WalSegment, f: NamedFile)
    requires
        seg_matches(seg, f),
    ensures
        seg.name@ == f.name@,
        seg.data@ == f.data@,
{
    reveal(seg_matches);
}

/// A directory entry whose name has the segment shape of `prefix` but holds
/// no canonical index: always fatal.
pub open spec fn bad_seg_name(prefix: Seq<char>, name: Seq<char>) -> bool {
    crate::names::matches_shape(prefix, name) && (forall|i: u64|
        name != spec_segment_name(prefix, i))
}

/// A directory a log can be opened from: no malformed segment name, and no
/// segment name listed twice.
pub open spec fn dir_ok(prefix: Seq<char>, dir: Seq<NamedFile>) -> bool {
    &&& forall|k: int| 0 <= k < dir.len() ==> !bad_seg_name(prefix, #[trigger] dir[k].name@)
    &&& forall|k: int, l: int|
        0 <= k < l < dir.len() && is_seg_name(prefix, #[trigger] dir[k].name@) ==> dir[k].name@
            != #[trigger] dir[l].name@
}

/// `segs` holds exactly the directory entries named as segments of `prefix`.
pub open spec fn selection_of(prefix: Seq<char>, dir: Seq<NamedFile>, segs: Seq<WalSegment>) -> bool {
    &&& forall|k: int| #![trigger dir[k]]
        0 <= k < dir.len() && is_seg_name(prefix, dir[k].name@) ==> exists|m: int|
            #![trigger segs[m]]
            0 <= m < segs.len() && seg_matches(segs[m], dir[k])
    &&& forall|m: int| #![trigger segs[m]]
        0 <= m < segs.len() ==> exists|k: int| #![trigger dir[k]]
            0 <= k < dir.len() && seg_matches(segs[m], dir[k])
}

/// There is at least one segment file of `prefix` in the directory.
pub open spec fn dir_has_segments(prefix: Seq<char>, dir: Seq<NamedFile>) -> bool {
    exists|k: int| 0 <= k < dir.len() && is_seg_name(prefix, #[trigger] dir[k].name@)
}

/// The segmented write-ahead log. The segments stand in ascending
/// start-index order; the last one is the open segment, the only one that
/// takes appends. The read cursor names a segment and a byte position in it.
#[derive(Debug)]
pub struct SegmentedWal {
    pub segments: Vec<WalSegment>,
    pub read_seg: usize,
    pub read_pos: usize,
    pub last_log_index: u64,
    pub cfg: WALConfig,
}

impl SegmentedWal {
    /// Structural soundness: at least one segment, every segment named for
    /// its own start index under the configured path, start indices strictly
    /// ascending, and the read cursor inside the segment it points at.
    pub open spec fn wf(&self) -> bool {
        &&& self.segments@.len() >= 1
        &&& forall|i: int|
            0 <= i < self.segments@.len() ==> (#[trigger] self.segments@[i]).wf(self.cfg.path@)
        &&& forall|i: int, j: int|
            0 <= i < j < self.segments@.len() ==> (#[trigger] self.segments@[i]).start_index < (
            #[trigger] self.segments@[j]).start_index
        &&& self.read_seg < self.segments@.len()
        &&& self.read_pos <= self.segments@[self.read_seg as int].data@.len()
    }

    /// All frames the log holds, in recovery order.
    pub open spec fn frames(&self) -> Seq<FrameModel> {
        rem_frames(self.segments@, 0, 0)
    }

    /// The frames still ahead of the read cursor.
    pub open spec fn remaining(&self) -> Seq<FrameModel> {
        rem_frames(self.segments@, self.read_seg as int, self.read_pos as int)
    }

    /// Whether the cursor can still reach the final segment without meeting
    /// a truncated tail mid-log.
    pub open spec fn remaining_ok(&self) -> bool {
        rem_ok(self.segments@, self.read_seg as int, self.read_pos as int)
    }

    /// Every segment holds whole frames only.
    pub open spec fn is_clean(&self) -> bool {
        forall|i: int| 0 <= i < self.segments@.len() ==> (#[trigger] self.segments@[i]).clean()
    }
}

/// Inserts a segment into a strictly ascending sequence, keeping the order
/// and returning the position it landed in; fails when a segment with the
/// same start index is already there.
fn insert_sorted(segs: &mut Vec<WalSegment>, seg: WalSegment) -> (r: Result<usize, WalError>)
    requires
        forall|i: int, j: int|
            0 <= i < j < old(segs)@.len() ==> (#[trigger] old(segs)@[i]).start_index < (
            #[trigger] old(segs)@[j]).start_index,
    ensures
        match r {
            Ok(m) => {
                &&& m <= old(segs)@.len()
                &&& final(segs)@ == old(segs)@.insert(m as int, seg)
                &&& forall|i: int, j: int|
                    0 <= i < j < final(segs)@.len() ==> (#[trigger] final(segs)@[i]).start_index < (
                    #[trigger] final(segs)@[j]).start_index
                &&& forall|i: int|
                    0 <= i < old(segs)@.len() ==> (#[trigger] old(segs)@[i]).start_index
                        != seg.start_index
            },
            Err(e) => {
                &&& e == WalError::DuplicateSegment
                &&& final(segs)@ == old(segs)@
                &&& exists|i: int|
                    0 <= i < old(segs)@.len() && (#[trigger] old(segs)@[i]).start_index
                        == seg.start_index
            },
        },
{
    let n = segs.len();
    let mut k: usize = 0;
    while k < n && segs[k].start_index < seg.start_index
        invariant
            n == segs@.len(),
            k <= n,
            segs@ == old(segs)@,
            forall|i: int, j: int|
                0 <= i < j < segs@.len() ==> (#[trigger] segs@[i]).start_index < (
                #[trigger] segs@[j]).start_index,
            forall|i: int| 0 <= i < k ==> (#[trigger] segs@[i]).start_index < seg.start_index,
        decreases n - k,
    {
        k = k + 1;
    }
    if k < n && segs[k].start_index == seg.start_index {
        return Err(WalError::DuplicateSegment);
    }
    assert(k < n ==> segs@[k as int].start_index > seg.start_index);
    proof {
        segs@.insert_ensures(k as int, seg);
    }
    segs.insert(k, seg);
    proof {
        let s2 = segs@;
        let s1 = old(segs)@;
        assert forall|i: int, j: int| 0 <= i < j < s2.len() implies (#[trigger] s2[i]).start_index
            < (#[trigger] s2[j]).start_index by {
            if i < k && j == k {
            } else if i == k && j > k {
                assert(s2[j] == s1[j - 1]);
            } else if i < k && j > k {
                assert(s2[j] == s1[j - 1]);
                assert(s1[i].start_index < s1[j - 1].start_index || i == j - 1);
            } else if i > k {
                assert(s2[i] == s1[i - 1] && s2[j] == s1[j - 1]);
            } else if j < k {
            } else if i == k && j == k {
            }
        }
        assert forall|i: int|
            0 <= i < s1.len() implies (#[trigger] s1[i]).start_index != seg.start_index by {
            if i >= k as int {
                if i > k {
                    assert(s1[k as int].start_index < s1[i].start_index);
                }
            }
        }
    }
    Ok(k)
}

impl SegmentedWal {
    /// Opens a log over the segment files found in `dir`, the listing of the
    /// log's directory. With `cfg.truncate` the listing is discarded and the
    /// log starts over from one fresh, empty segment; deleting the old files
    /// is the caller's business. Otherwise every file named as a segment of
    /// `cfg.path` is taken up and the segments stand in ascending start-index
    /// order, the one with the largest start index being the open segment; a
    /// malformed or duplicated segment name fails the open.
    pub fn open(cfg: WALConfig, dir: Vec<NamedFile>) -> (r: Result<SegmentedWal, WalError>)
        ensures
            match r {
                Ok(w) => {
                    &&& w.wf()
                    &&& w.cfg == cfg
                    &&& w.last_log_index == 0
                    &&& w.read_seg == 0 && w.read_pos == 0
                    &&& w.remaining() == w.frames()
                    &&& if cfg.truncate {
                        w.segments@.len() == 1 && w.segments@[0].start_index == cfg.start_index
                            && w.segments@[0].data@ == Seq::<u8>::empty()
                    } else if dir_has_segments(cfg.path@, dir@) {
                        selection_of(cfg.path@, dir@, w.segments@)
                    } else {
                        w.segments@.len() == 1 && w.segments@[0].start_index == cfg.start_index
                            && w.segments@[0].data@ == Seq::<u8>::empty()
                    }
                },
                Err(e) => {
                    &&& !cfg.truncate
                    &&& !dir_ok(cfg.path@, dir@)
                    &&& (e == WalError::BadSegmentName || e == WalError::DuplicateSegment)
                },
            },
            r is Ok <== cfg.truncate || dir_ok(cfg.path@, dir@),
    {
        if cfg.truncate {
            let seg = WalSegment::new(cfg.path.as_str(), cfg.start_index);
            let mut segments: Vec<WalSegment> = Vec::new();
            segments.push(seg);
            return Ok(
                SegmentedWal { segments, read_seg: 0, read_pos: 0, last_log_index: 0, cfg },
            );
        }
        let mut segments: Vec<WalSegment> = Vec::new();
        let mut rest = dir;
        let ghost dirv = rest@;
        let ghost mut wit: Seq<int> = Seq::empty();
        let ghost mut cov: Seq<int> = Seq::new(dirv.len(), |k: int| 0);
        while rest.len() > 0
            invariant
                !cfg.truncate,
                dirv == dir@,
                rest@.len() <= dirv.len(),
                rest@ == dirv.take(rest@.len() as int),
                wit.len() == segments@.len(),
                cov.len() == dirv.len(),
                forall|i: int, j: int|
                    0 <= i < j < segments@.len() ==> (#[trigger] segments@[i]).start_index < (
                    #[trigger] segments@[j]).start_index,
                forall|m: int|
                    0 <= m < segments@.len() ==> (#[trigger] segments@[m]).wf(cfg.path@),
                forall|m: int|
                    #![trigger wit[m]]
                    0 <= m < segments@.len() ==> rest@.len() <= wit[m] < dirv.len() && seg_matches(
                        segments@[m],
                        dirv[wit[m]],
                    ),
                forall|k: int|
                    #![trigger cov[k]]
                    rest@.len() <= k < dirv.len() && is_seg_name(cfg.path@, dirv[k].name@) ==> 0
                        <= cov[k] < segments@.len() && seg_matches(segments@[cov[k]], dirv[k]),
                forall|k: int|
                    rest@.len() <= k < dirv.len() ==> !bad_seg_name(
                        cfg.path@,
                        #[trigger] dirv[k].name@,
                    ),
                forall|k: int, l: int|
                    rest@.len() <= k < l < dirv.len() && is_seg_name(
                        cfg.path@,
                        #[trigger] dirv[k].name@,
                    ) ==> dirv[k].name@ != #[trigger] dirv[l].name@,
            decreases rest.len(),
        {
            let ghost restlen = rest@.len() as int;
            let f = rest.pop().unwrap();
            let ghost fname = f.name@;
            let ghost fdata = f.data@;
            proof {
                assert(f == dirv.take(restlen)[restlen - 1]);
                assert(rest@ =~= dirv.take(restlen - 1));
                assert(dirv[restlen - 1].name@ == fname);
                assert(dirv[restlen - 1].data@ == fdata);
            }
            match WalSegment::open(f, cfg.path.as_str()) {
                Err(e) => {
                    proof {
                        assert(bad_seg_name(cfg.path@, fname)) by {
                            assert(crate::names::matches_shape(cfg.path@, fname));
                        }
                        assert(!dir_ok(cfg.path@, dirv));
                    }
                    return Err(e);
                },
                Ok(None) => {
                    proof {
                        assert(!is_seg_name(cfg.path@, fname));
                        assert(!bad_seg_name(cfg.path@, fname));
                    }
                },
                Ok(Some(seg)) => {
                    let ghost segsnap = segments@;
                    let ghost segv = seg;
                    match insert_sorted(&mut segments, seg) {
                        Ok(m0) => {
                            proof {
                                let m0i = m0 as int;
                                let oldwit = wit;
                                let oldcov = cov;
                                segsnap.insert_ensures(m0i, segv);
                                oldwit.insert_ensures(m0i, restlen - 1);
                                wit = oldwit.insert(m0i, restlen - 1);
                                cov = Seq::new(
                                    dirv.len(),
                                    |k: int|
                                        if k == restlen - 1 {
                                            m0i
                                        } else if oldcov[k] >= m0i {
                                            oldcov[k] + 1
                                        } else {
                                            oldcov[k]
                                        },
                                );
                                lemma_seg_matches_intro(segv, dirv[restlen - 1]);
                                assert forall|m: int|
                                    #![trigger wit[m]]
                                    0 <= m < segments@.len() implies rest@.len() <= wit[m]
                                    < dirv.len() && seg_matches(segments@[m], dirv[wit[m]]) by {
                                    if m < m0i {
                                        assert(segments@[m] == segsnap[m]);
                                        assert(wit[m] == oldwit[m]);
                                        assert(restlen <= oldwit[m] < dirv.len() && seg_matches(
                                            segsnap[m],
                                            dirv[oldwit[m]],
                                        ));
                                    } else if m == m0i {
                                        assert(segments@[m0i] == segv);
                                        assert(wit[m0i] == restlen - 1);
                                    } else {
                                        assert(segments@[m] == segsnap[m - 1]);
                                        assert(wit[m] == oldwit[m - 1]);
                                        assert(restlen <= oldwit[m - 1] < dirv.len()
                                            && seg_matches(segsnap[m - 1], dirv[oldwit[m - 1]]));
                                    }
                                }
                                assert forall|k: int|
                                    #![trigger cov[k]]
                                    rest@.len() <= k < dirv.len() && is_seg_name(
                                        cfg.path@,
                                        dirv[k].name@,
                                    ) implies 0 <= cov[k] < segments@.len() && seg_matches(
                                    segments@[cov[k]],
                                    dirv[k],
                                ) by {
                                    if k == restlen - 1 {
                                        assert(cov[k] == m0i);
                                        assert(segments@[m0i] == segv);
                                    } else {
                                        assert(0 <= oldcov[k] < segsnap.len() && seg_matches(
                                            segsnap[oldcov[k]],
                                            dirv[k],
                                        ));
                                        if oldcov[k] >= m0i {
                                            assert(cov[k] == oldcov[k] + 1);
                                            assert(segments@[oldcov[k] + 1] == segsnap[oldcov[k]]);
                                        } else {
                                            assert(cov[k] == oldcov[k]);
                                            assert(segments@[oldcov[k]] == segsnap[oldcov[k]]);
                                        }
                                    }
                                }
                                assert forall|k: int, l: int|
                                    rest@.len() <= k < l < dirv.len() && is_seg_name(
                                        cfg.path@,
                                        #[trigger] dirv[k].name@,
                                    ) implies dirv[k].name@ != #[trigger] dirv[l].name@ by {
                                    if k == restlen - 1 && dirv[k].name@ == dirv[l].name@ {
                                        assert(is_seg_name(cfg.path@, dirv[l].name@));
                                        assert(0 <= oldcov[l] < segsnap.len() && seg_matches(
                                            segsnap[oldcov[l]],
                                            dirv[l],
                                        ));
                                        lemma_seg_matches_elim(segsnap[oldcov[l]], dirv[l]);
                                        assert(segsnap[oldcov[l]].name@ == fname);
                                        assert(segsnap[oldcov[l]].wf(cfg.path@));
                                        lemma_segment_name_injective(
                                            cfg.path@,
                                            segsnap[oldcov[l]].start_index,
                                            segv.start_index,
                                        );
                                        assert(false);
                                    }
                                }
                            }
                        },
                        Err(e) => {
                            proof {
                                let i0 = choose|i: int|
                                    0 <= i < segsnap.len() && (#[trigger] segsnap[i]).start_index
                                        == segv.start_index;
                                let k1 = wit[i0];
                                assert(restlen <= k1 < dirv.len() && seg_matches(
                                    segsnap[i0],
                                    dirv[k1],
                                ));
                                lemma_seg_matches_elim(segsnap[i0], dirv[k1]);
                                assert(segsnap[i0].wf(cfg.path@));
                                assert(dirv[k1].name@ == spec_segment_name(
                                    cfg.path@,
                                    segv.start_index,
                                ));
                                assert(dirv[restlen - 1].name@ == dirv[k1].name@);
                                assert(is_seg_name(cfg.path@, dirv[restlen - 1].name@));
                                assert(!dir_ok(cfg.path@, dirv)) by {
                                    if dir_ok(cfg.path@, dirv) {
                                        assert(dirv[restlen - 1].name@ != dirv[k1].name@);
                                    }
                                }
                            }
                            return Err(e);
                        },
                    }
                },
            }
        }
        proof {
            assert(rest@.len() == 0);
        }
        if segments.len() == 0 {
            proof {
                assert(!dir_has_segments(cfg.path@, dirv)) by {
                    if dir_has_segments(cfg.path@, dirv) {
                        let k = choose|k: int|
                            0 <= k < dirv.len() && is_seg_name(cfg.path@, #[trigger] dirv[k].name@);
                        assert(0 <= cov[k] < segments@.len());
                    }
                }
            }
            let seg = WalSegment::new(cfg.path.as_str(), cfg.start_index);
            segments.push(seg);
            return Ok(
                SegmentedWal { segments, read_seg: 0, read_pos: 0, last_log_index: 0, cfg },
            );
        }
        proof {
            assert(dir_has_segments(cfg.path@, dirv)) by {
                let k1 = wit[0];
                assert(0 <= k1 < dirv.len() && seg_matches(segments@[0], dirv[k1]));
                lemma_seg_matches_elim(segments@[0], dirv[k1]);
                assert(segments@[0].wf(cfg.path@));
                assert(dirv[k1].name@ == spec_segment_name(cfg.path@, segments@[0].start_index));
                assert(is_seg_name(cfg.path@, dirv[k1].name@));
            }
            assert forall|k: int|
                #![trigger dir@[k]]
                0 <= k < dir@.len() && is_seg_name(cfg.path@, dir@[k].name@) implies exists|m: int|
                #![trigger segments@[m]]
                0 <= m < segments@.len() && seg_matches(segments@[m], dir@[k]) by {
                assert(0 <= cov[k] < segments@.len() && seg_matches(segments@[cov[k]], dirv[k]));
            }
            assert forall|m: int|
                #![trigger segments@[m]]
                0 <= m < segments@.len() implies exists|k: int|
                #![trigger dir@[k]]
                0 <= k < dir@.len() && seg_matches(segments@[m], dir@[k]) by {
                assert(0 <= wit[m] < dirv.len() && seg_matches(segments@[m], dirv[wit[m]]));
            }
        }
        Ok(SegmentedWal { segments, read_seg: 0, read_pos: 0, last_log_index: 0, cfg })
    }
}

/// Appending a fresh, empty segment leaves the frame stream as it was.
proof fn lemma_rem_push_empty(segs: Seq<WalSegment>, newseg: WalSegment, i: int)
    requires
        0 <= i < segs.len(),
        newseg.data@ == Seq::<u8>::empty(),
        forall|j: int| i <= j < segs.len() ==> (#[trigger] segs[j]).clean(),
    ensures
        rem_frames(segs.push(newseg), i, 0) == rem_frames(segs, i, 0),
        rem_ok(segs.push(newseg), i, 0),
        rem_ok(segs, i, 0),
    decreases segs.len() - i,
{
    let u = segs.push(newseg);
    assert(u[segs.len() as int] == newseg);
    assert(parse_frames_at(newseg.data@, 0) == (Seq::<FrameModel>::empty(), true));
    if i == segs.len() - 1 {
        let head = parse_frames_at(segs[i].data@, 0);
        assert(u[i] == segs[i]);
        assert(head.1);
        assert(rem_frames(u, i + 1, 0) =~= Seq::<FrameModel>::empty());
        assert(rem_frames(u, i, 0) =~= head.0 + Seq::<FrameModel>::empty());
        assert(rem_frames(u, i, 0) =~= head.0);
        assert(rem_ok(u, i + 1, 0));
        assert(rem_ok(u, i, 0));
        assert(rem_ok(segs, i, 0));
    } else {
        assert(u[i] == segs[i]);
        lemma_rem_push_empty(segs, newseg, i + 1);
        assert(rem_ok(u, i, 0));
        assert(rem_ok(segs, i, 0));
    }
}

/// Frame streams depend on segment bytes alone.
pub proof fn lemma_rem_data_eq(s1: Seq<WalSegment>, s2: Seq<WalSegment>, i: int, pos: int)
    requires
        s1.len() == s2.len(),
        forall|j: int| 0 <= j < s1.len() ==> (#[trigger] s1[j]).data@ == s2[j].data@,
    ensures
        rem_frames(s1, i, pos) == rem_frames(s2, i, pos),
        rem_ok(s1, i, pos) == rem_ok(s2, i, pos),
    decreases s1.len() - i,
{
    if 0 <= i < s1.len() {
        assert(s1[i].data@ == s2[i].data@);
        if i < s1.len() - 1 {
            lemma_rem_data_eq(s1, s2, i + 1, 0);
        }
    }
}

/// Appending one frame to the last segment appends exactly that frame to
/// the frame stream, for a log whose segments are all clean.
proof fn lemma_rem_extend_last(segs: Seq<WalSegment>, seg2: WalSegment, fb: FrameModel, i: int)
    requires
        0 <= i < segs.len(),
        forall|j: int| i <= j < segs.len() ==> (#[trigger] segs[j]).clean(),
        seg2.data@ == segs.last().data@ + spec_frame_bytes(fb),
        crate::frame::frame_fits(fb),
    ensures
        rem_frames(segs.update(segs.len() - 1, seg2), i, 0) == rem_frames(segs, i, 0).push(fb),
        seg2.clean(),
        rem_ok(segs.update(segs.len() - 1, seg2), i, 0),
    decreases segs.len() - i,
{
    let u = segs.update(segs.len() - 1, seg2);
    crate::frame::lemma_frames_append(segs.last().data@, fb);
    if i == segs.len() - 1 {
        assert(u[i] == seg2);
        assert(rem_frames(u, i, 0) == crate::frame::frames_of(seg2.data@));
        assert(rem_frames(segs, i, 0) == crate::frame::frames_of(segs.last().data@));
    } else {
        assert(u[i] == segs[i]);
        let head = parse_frames_at(segs[i].data@, 0);
        assert(head.1);
        lemma_rem_extend_last(segs, seg2, fb, i + 1);
        assert(head.0 + rem_frames(segs, i + 1, 0).push(fb) =~= (head.0 + rem_frames(
            segs,
            i + 1,
            0,
        )).push(fb));
    }
}

impl SegmentedWal {
    /// Whether the next append rolls over: the open segment has reached the
    /// size threshold, and the next index can name a fresh, later segment.
    pub open spec fn must_roll(&self) -> bool {
        &&& self.segments@.last().data@.len() >= self.cfg.max_log_size
        &&& self.last_log_index + 1 > self.segments@.last().start_index
    }

    /// Appends one entry to the log: assigns it the next log index, rolls
    /// the open segment over first when it has reached the size threshold,
    /// and only then advances the index counter. A failed encoding changes
    /// no frame and no index.
    pub fn write(&mut self, cmd: WalEntry) -> (r: Result<(), WalError>)
        requires
            old(self).wf(),
            old(self).last_log_index < u64::MAX,
        ensures
            final(self).wf(),
            final(self).cfg == old(self).cfg,
            final(self).read_seg == old(self).read_seg,
            final(self).read_pos == old(self).read_pos,
            if old(self).must_roll() {
                &&& final(self).segments@.len() == old(self).segments@.len() + 1
                &&& final(self).segments@.subrange(0, old(self).segments@.len() as int) == old(
                    self,
                ).segments@
                &&& final(self).segments@.last().start_index == old(self).last_log_index + 1
            } else {
                &&& final(self).segments@.len() == old(self).segments@.len()
                &&& final(self).segments@.subrange(0, old(self).segments@.len() - 1) == old(
                    self,
                ).segments@.subrange(0, old(self).segments@.len() - 1)
                &&& final(self).segments@.last().start_index == old(
                    self,
                ).segments@.last().start_index
                &&& final(self).segments@.last().name == old(self).segments@.last().name
            },
            match r {
                Ok(()) => {
                    &&& fits_frame(cmd@)
                    &&& final(self).last_log_index == old(self).last_log_index + 1
                    &&& final(self).segments@.last().data@ == (if old(self).must_roll() {
                        spec_frame_bytes(written_frame(old(self).last_log_index, cmd@))
                    } else {
                        old(self).segments@.last().data@ + spec_frame_bytes(
                            written_frame(old(self).last_log_index, cmd@),
                        )
                    })
                    &&& (old(self).is_clean() ==> final(self).is_clean() && final(self).frames()
                        == old(self).frames().push(written_frame(old(self).last_log_index, cmd@)))
                },
                Err(e) => {
                    &&& e == WalError::Serialization
                    &&& !fits_frame(cmd@)
                    &&& final(self).last_log_index == old(self).last_log_index
                    &&& final(self).segments@.last().data@ == (if old(self).must_roll() {
                        Seq::<u8>::empty()
                    } else {
                        old(self).segments@.last().data@
                    })
                    &&& (old(self).is_clean() ==> final(self).is_clean() && final(self).frames()
                        == old(self).frames())
                },
            },
    {
        let ghost pre = *self;
        let n = self.segments.len();
        let needs_roll = self.segments[n - 1].data.len() as u64 >= self.cfg.max_log_size
            && self.last_log_index + 1 > self.segments[n - 1].start_index;
        if needs_roll {
            let seg = WalSegment::new(self.cfg.path.as_str(), self.last_log_index + 1);
            self.segments.push(seg);
            proof {
                assert(parse_frames_at(seg.data@, 0) == (Seq::<FrameModel>::empty(), true));
                if pre.is_clean() {
                    lemma_rem_push_empty(pre.segments@, seg, 0);
                }
            }
        }
        let ghost mid = self.segments@;
        let index = self.last_log_index + 1;
        let entry = WalEntryWithHeader { index, generation: GENERATION, entry: cmd };
        let mut seg = self.segments.pop().unwrap();
        let ghost segpre = seg;
        let res = seg.write_entry(entry);
        self.segments.push(seg);
        proof {
            assert(self.segments@ =~= mid.update(mid.len() - 1, self.segments@.last()));
        }
        match res {
            Ok(()) => {
                self.last_log_index = index;
                proof {
                    if pre.is_clean() {
                        lemma_rem_extend_last(
                            mid,
                            self.segments@.last(),
                            written_frame(pre.last_log_index, cmd@),
                            0,
                        );
                    }
                    assert(self.segments@.subrange(0, mid.len() - 1) =~= mid.subrange(
                        0,
                        mid.len() - 1,
                    ));
                    if pre.must_roll() {
                        assert(self.segments@.subrange(0, pre.segments@.len() as int)
                            =~= pre.segments@);
                    }
                }
                Ok(())
            },
            Err(e) => {
                proof {
                    assert(forall|j: int|
                        0 <= j < self.segments@.len() ==> (#[trigger] self.segments@[j]).data@
                            == mid[j].data@);
                    if pre.is_clean() {
                        lemma_rem_data_eq(self.segments@, mid, 0, 0);
                        assert forall|j: int|
                            0 <= j < self.segments@.len() implies (
                        #[trigger] self.segments@[j]).clean() by {
                            assert(self.segments@[j].data@ == mid[j].data@);
                            if j < mid.len() - 1 || !pre.must_roll() {
                                assert(mid[j] == pre.segments@[j]);
                            }
                        }
                    }
                    assert(self.segments@.subrange(0, mid.len() - 1) =~= mid.subrange(
                        0,
                        mid.len() - 1,
                    ));
                    if pre.must_roll() {
                        assert(self.segments@.subrange(0, pre.segments@.len() as int)
                            =~= pre.segments@);
                    }
                }
                Err(e)
            },
        }
    }

    /// Reads the next frame of the log, in ascending segment order,
    /// advancing the read cursor past it and keeping the index counter no
    /// lower than any index seen. `Ok(None)` once every frame has been
    /// read — a truncated tail on the final segment counts as the crash
    /// point and ends recovery cleanly. A truncated tail on an earlier
    /// segment is corruption and surfaces as an error.
    pub fn read_next(&mut self) -> (r: Result<Option<WalFrame>, WalError>)
        requires
            old(self).wf(),
        ensures
            final(self).wf(),
            final(self).segments@ == old(self).segments@,
            final(self).cfg == old(self).cfg,
            match r {
                Ok(Some(f)) => {
                    &&& old(self).remaining().len() > 0
                    &&& f@ == old(self).remaining()[0]
                    &&& final(self).remaining() == old(self).remaining().skip(1)
                    &&& final(self).remaining_ok() == old(self).remaining_ok()
                    &&& final(self).last_log_index == (if f.index > old(self).last_log_index {
                        f.index
                    } else {
                        old(self).last_log_index
                    })
                },
                Ok(None) => {
                    &&& old(self).remaining().len() == 0
                    &&& old(self).remaining_ok()
                    &&& final(self).remaining().len() == 0
                    &&& final(self).remaining_ok()
                    &&& final(self).last_log_index == old(self).last_log_index
                },
                Err(e) => {
                    &&& e == WalError::TruncatedTail
                    &&& old(self).remaining().len() == 0
                    &&& !old(self).remaining_ok()
                    &&& final(self).remaining().len() == 0
                    &&& !final(self).remaining_ok()
                    &&& final(self).last_log_index == old(self).last_log_index
                },
            },
    {
        loop
            invariant
                self.wf(),
                self.segments@ == old(self).segments@,
                self.cfg == old(self).cfg,
                self.last_log_index == old(self).last_log_index,
                rem_frames(self.segments@, self.read_seg as int, self.read_pos as int) == old(
                    self,
                ).remaining(),
                rem_ok(self.segments@, self.read_seg as int, self.read_pos as int) == old(
                    self,
                ).remaining_ok(),
            decreases self.segments@.len() - self.read_seg,
        {
            let n = self.segments.len();
            let is_last = self.read_seg == n - 1;
            let ghost i = self.read_seg as int;
            let ghost p0 = self.read_pos as int;
            let ghost data = self.segments@[i].data@;
            let mut pos = self.read_pos;
            let res = self.segments[self.read_seg].read_next(&mut pos);
            match res {
                Ok(Some(f)) => {
                    self.read_pos = pos;
                    proof {
                        let end = pos as int;
                        let head = parse_frames_at(data, p0);
                        let head2 = parse_frames_at(data, end);
                        assert(head == (seq![f@] + head2.0, head2.1));
                        let r0 = rem_frames(self.segments@, i, p0);
                        let r1 = rem_frames(self.segments@, i, end);
                        if i == self.segments@.len() - 1 {
                            assert(r0 == seq![f@] + head2.0);
                            assert(r1 == head2.0);
                            assert(r0.skip(1) =~= r1);
                        } else if head2.1 {
                            assert(r0 == (seq![f@] + head2.0) + rem_frames(
                                self.segments@,
                                i + 1,
                                0,
                            ));
                            assert(r1 == head2.0 + rem_frames(self.segments@, i + 1, 0));
                            assert(r0.skip(1) =~= r1);
                            assert(r0[0] == f@);
                        } else {
                            assert(r0 == seq![f@] + head2.0);
                            assert(r1 == head2.0);
                            assert(r0.skip(1) =~= r1);
                        }
                        assert(r0.len() > 0 && r0[0] == f@);
                    }
                    if f.index > self.last_log_index {
                        self.last_log_index = f.index;
                    }
                    return Ok(Some(f));
                },
                Ok(None) => {
                    if is_last {
                        return Ok(None);
                    }
                    proof {
                        assert(parse_frames_at(data, p0) == (Seq::<FrameModel>::empty(), true));
                        assert(rem_frames(self.segments@, i, p0) =~= rem_frames(
                            self.segments@,
                            i + 1,
                            0,
                        ));
                    }
                    self.read_seg = self.read_seg + 1;
                    self.read_pos = 0;
                },
                Err(e) => {
                    if is_last {
                        proof {
                            assert(parse_frames_at(data, p0) == (
                                Seq::<FrameModel>::empty(),
                                false,
                            ));
                        }
                        return Ok(None);
                    }
                    proof {
                        assert(parse_frames_at(data, p0) == (Seq::<FrameModel>::empty(), false));
                    }
                    return Err(e);
                },
            }
        }
    }
}

impl SegmentedWal {
    /// Writes the log's segments out as directory entries carrying the
    /// segment file names and bytes, in ascending start-index order.
    pub fn segment_files(&self) -> (r: Vec<NamedFile>)
        ensures
            r@.len() == self.segments@.len(),
            forall|m: int|
                0 <= m < r@.len() ==> (#[trigger] r@[m]).name@ == self.segments@[m].name@
                    && r@[m].data@ == self.segments@[m].data@,
    {
        let mut out: Vec<NamedFile> = Vec::new();
        let n = self.segments.len();
        for i in 0..n
            invariant
                n == self.segments@.len(),
                out@.len() == i,
                forall|m: int|
                    0 <= m < i ==> (#[trigger] out@[m]).name@ == self.segments@[m].name@
                        && out@[m].data@ == self.segments@[m].data@,
        {
            let name = self.segments[i].name.clone();
            let data = vstd::slice::slice_to_vec(self.segments[i].data.as_slice());
            out.push(NamedFile { name, data });
        }
        out
    }
}

/// A recovery iterator: one ordered stream of frames across all segment
/// files of a logical log.
pub struct WalEntryIterator {
    pub wal: SegmentedWal,
}

impl WalEntryIterator {
    /// Discovers the segments of the log named `path` in the directory
    /// listing `dir` and stands ready to read them in start-index order.
    pub fn new(path: &str, dir: Vec<NamedFile>) -> (r: Result<WalEntryIterator, WalError>)
        ensures
            match r {
                Ok(it) => {
                    &&& it.wal.wf()
                    &&& it.wal.cfg.path@ == path@
                    &&& it.wal.remaining() == it.wal.frames()
                    &&& (dir_has_segments(path@, dir@) ==> selection_of(
                        path@,
                        dir@,
                        it.wal.segments@,
                    ))
                },
                Err(e) => !dir_ok(path@, dir@) && (e == WalError::BadSegmentName || e
                    == WalError::DuplicateSegment),
            },
            r is Ok <== dir_ok(path@, dir@),
    {
        let cfg = WALConfig {
            path: path.to_owned(),
            truncate: false,
            start_index: 1,
            max_log_size: u64::MAX,
        };
        match SegmentedWal::open(cfg, dir) {
            Ok(wal) => Ok(WalEntryIterator { wal }),
            Err(e) => Err(e),
        }
    }

    /// Reads the next frame in global append order; `Ok(None)` at the end
    /// of the last segment or at its crash-truncated tail, an error on a
    /// truncated tail anywhere earlier.
    pub fn read_next(&mut self) -> (r: Result<Option<WalFrame>, WalError>)
        requires
            old(self).wal.wf(),
        ensures
            final(self).wal.wf(),
            final(self).wal.segments@ == old(self).wal.segments@,
            match r {
                Ok(Some(f)) => {
                    &&& old(self).wal.remaining().len() > 0
                    &&& f@ == old(self).wal.remaining()[0]
                    &&& final(self).wal.remaining() == old(self).wal.remaining().skip(1)
                },
                Ok(None) => old(self).wal.remaining().len() == 0 && old(self).wal.remaining_ok(),
                Err(e) => e == WalError::TruncatedTail && old(self).wal.remaining().len() == 0
                    && !old(self).wal.remaining_ok(),
            },
    {
        self.wal.read_next()
    }
}

/// The frame that an append carries when the log's index counter stands at
/// `last` before the append.
pub open spec fn written_frame(last: u64, e: crate::codec::WalEntryModel) -> FrameModel {
    FrameModel { index: (last + 1) as u64, generation: GENERATION, payload: spec_encode(e) }
}

} // verus!
