//! The key-value store: an in-memory mapping owned together with the
//! write-ahead log that makes it durable. On open the log is replayed, in
//! order, into the mapping; afterwards every mutation is appended to the log
//! before the mapping changes, so the log never lags behind the mapping.

use vstd::prelude::*;

verus! {

use crate::codec::{fits_frame, spec_decode, WalEntry, WalEntryModel, WalEntryView};
use crate::frame::FrameModel;
use crate::segmented_log::{dir_ok, SegmentedWal, WALConfig};
use crate::{NamedFile, WalError};

/// The size in bytes at which a store's open log segment rolls over, when
/// the store is built without an explicit configuration.
pub const DEFAULT_MAX_LOG_SIZE: u64 = 1048576;

/// Applies key/value pairs to a mapping in order: a later pair for the same
/// key wins.
pub open spec fn apply_pairs(
    m: Map<Seq<char>, Seq<char>>,
    ps: Seq<(Seq<char>, Seq<char>)>,
) -> Map<Seq<char>, Seq<char>>
    decreases ps.len(),
{
    if ps.len() == 0 {
        m
    } else {
        apply_pairs(m.insert(ps[0].0, ps[0].1), ps.drop_first())
    }
}

/// Applies one log entry to a mapping.
pub open spec fn apply_entry(m: Map<Seq<char>, Seq<char>>, e: WalEntryModel) -> Map<
    Seq<char>,
    Seq<char>,
> {
    match e {
        WalEntryModel::Put { key, value } => m.insert(key, value),
        WalEntryModel::Batch { pairs } => apply_pairs(m, pairs),
    }
}

/// The mapping that replaying a sequence of log entries from scratch builds.
pub open spec fn replay(es: Seq<WalEntryModel>) -> Map<Seq<char>, Seq<char>>
    decreases es.len(),
{
    if es.len() == 0 {
        Map::empty()
    } else {
        apply_entry(replay(es.drop_last()), es.last())
    }
}

/// The entries held by a sequence of frames, if every payload decodes.
pub open spec fn entries_of(fs: Seq<FrameModel>) -> Option<Seq<WalEntryModel>>
    decreases fs.len(),
{
    if fs.len() == 0 {
        Some(Seq::empty())
    } else {
        match (entries_of(fs.drop_last()), spec_decode(fs.last().payload)) {
            (Some(es), Some(e)) => Some(es.push(e)),
            _ => None,
        }
    }
}

/// Frames and their decoded entries come one for one.
pub proof fn lemma_entries_of_len(fs: Seq<FrameModel>)
    ensures
        entries_of(fs) is Some ==> entries_of(fs)->Some_0.len() == fs.len(),
    decreases fs.len(),
{
    if fs.len() > 0 {
        lemma_entries_of_len(fs.drop_last());
    }
}

/// Applying one more pair is one more insert.
pub proof fn lemma_apply_pairs_push(
    m: Map<Seq<char>, Seq<char>>,
    ps: Seq<(Seq<char>, Seq<char>)>,
    p: (Seq<char>, Seq<char>),
)
    ensures
        apply_pairs(m, ps.push(p)) == apply_pairs(m, ps).insert(p.0, p.1),
    decreases ps.len(),
{
    if ps.len() == 0 {
        assert(ps.push(p)[0] == p);
        assert(ps.push(p).drop_first() =~= Seq::<(Seq<char>, Seq<char>)>::empty());
        assert(apply_pairs(m.insert(p.0, p.1), Seq::<(Seq<char>, Seq<char>)>::empty()) == m.insert(
            p.0,
            p.1,
        ));
        assert(apply_pairs(m, ps.push(p)) == m.insert(p.0, p.1));
        assert(apply_pairs(m, ps) == m);
    } else {
        assert(ps.push(p)[0] == ps[0]);
        assert(ps.push(p).drop_first() =~= ps.drop_first().push(p));
        lemma_apply_pairs_push(m.insert(ps[0].0, ps[0].1), ps.drop_first(), p);
    }
}

/// The in-memory mapping: an association list with at most one entry per
/// key, read with last-entry-wins semantics.
#[derive(Debug)]
pub struct KvMap {
    pub pairs: Vec<(String, String)>,
}

/// The mapping an association list denotes: later entries win.
pub open spec fn map_of(ps: Seq<(String, String)>) -> Map<Seq<char>, Seq<char>>
    decreases ps.len(),
{
    if ps.len() == 0 {
        Map::empty()
    } else {
        map_of(ps.drop_last()).insert(ps.last().0@, ps.last().1@)
    }
}

impl View for KvMap {
    type V = Map<Seq<char>, Seq<char>>;

    open spec fn view(&self) -> Map<Seq<char>, Seq<char>> {
        map_of(self.pairs@)
    }
}

/// No key occurs twice in the list.
pub open spec fn unique_keys(ps: Seq<(String, String)>) -> bool {
    forall|i: int, j: int|
        0 <= i < j < ps.len() ==> (#[trigger] ps[i]).0@ != (#[trigger] ps[j]).0@
}

/// A pair whose key no later pair repeats gives the mapping's value at that
/// key.
proof fn lemma_map_of_get(ps: Seq<(String, String)>, i: int)
    requires
        0 <= i < ps.len(),
        forall|j: int| i < j < ps.len() ==> (#[trigger] ps[j]).0@ != ps[i].0@,
    ensures
        map_of(ps).contains_key(ps[i].0@),
        map_of(ps)[ps[i].0@] == ps[i].1@,
    decreases ps.len(),
{
    if i == ps.len() - 1 {
    } else {
        assert(ps.drop_last()[i] == ps[i]);
        lemma_map_of_get(ps.drop_last(), i);
        assert(ps.last().0@ != ps[i].0@);
    }
}

/// A key no pair carries is absent from the mapping.
proof fn lemma_map_of_none(ps: Seq<(String, String)>, k: Seq<char>)
    requires
        forall|j: int| 0 <= j < ps.len() ==> (#[trigger] ps[j]).0@ != k,
    ensures
        !map_of(ps).contains_key(k),
    decreases ps.len(),
{
    if ps.len() > 0 {
        assert(forall|j: int|
            0 <= j < ps.drop_last().len() ==> (#[trigger] ps.drop_last()[j]).0@ != k);
        lemma_map_of_none(ps.drop_last(), k);
    }
}

/// Removing the one pair that carries a key removes exactly that key.
proof fn lemma_map_of_remove(ps: Seq<(String, String)>, i: int)
    requires
        unique_keys(ps),
        0 <= i < ps.len(),
    ensures
        map_of(ps.remove(i)) == map_of(ps).remove(ps[i].0@),
    decreases ps.len(),
{
    let k = ps[i].0@;
    ps.remove_ensures(i);
    if i == ps.len() - 1 {
        assert(ps.remove(i) =~= ps.drop_last());
        assert(forall|j: int| 0 <= j < ps.len() - 1 ==> (#[trigger] ps[j]).0@ != k);
        assert(forall|j: int|
            0 <= j < ps.drop_last().len() ==> (#[trigger] ps.drop_last()[j]).0@ != k);
        lemma_map_of_none(ps.drop_last(), k);
        assert(map_of(ps.drop_last()).insert(k, ps.last().1@).remove(k) =~= map_of(
            ps.drop_last(),
        ));
    } else {
        assert(ps.remove(i).drop_last() =~= ps.drop_last().remove(i));
        assert(ps.remove(i).last() == ps.last());
        assert(forall|a: int, b: int|
            0 <= a < b < ps.drop_last().len() ==> (#[trigger] ps.drop_last()[a]).0@ != (
            #[trigger] ps.drop_last()[b]).0@);
        lemma_map_of_remove(ps.drop_last(), i);
        assert(ps.drop_last()[i] == ps[i]);
        let lk = ps.last().0@;
        let lv = ps.last().1@;
        assert(lk != k);
        assert(map_of(ps.drop_last()).remove(k).insert(lk, lv) =~= map_of(ps.drop_last()).insert(
            lk,
            lv,
        ).remove(k));
    }
}

impl KvMap {
    /// A fresh, empty mapping.
    pub fn new() -> (m: KvMap)
        ensures
            unique_keys(m.pairs@),
            m@ == Map::<Seq<char>, Seq<char>>::empty(),
            m.pairs@.len() == 0,
    {
        KvMap { pairs: Vec::new() }
    }

    /// Looks a key up; purely in memory.
    pub fn get(&self, key: &str) -> (r: Option<&String>)
        ensures
            match r {
                Some(v) => self@.contains_key(key@) && v@ == self@[key@],
                None => !self@.contains_key(key@),
            },
    {
        let owned = key.to_owned();
        let mut i = self.pairs.len();
        while i > 0
            invariant
                i <= self.pairs@.len(),
                owned@ == key@,
                forall|j: int| i <= j < self.pairs@.len() ==> (#[trigger] self.pairs@[j]).0@ != key@,
            decreases i,
        {
            i = i - 1;
            if self.pairs[i].0 == owned {
                proof {
                    lemma_map_of_get(self.pairs@, i as int);
                }
                return Some(&self.pairs[i].1);
            }
        }
        proof {
            lemma_map_of_none(self.pairs@, key@);
        }
        None
    }

    /// Binds a key to a value, replacing any binding the key had.
    pub fn insert(&mut self, key: String, value: String)
        requires
            unique_keys(old(self).pairs@),
        ensures
            unique_keys(final(self).pairs@),
            final(self)@ == old(self)@.insert(key@, value@),
    {
        let n = self.pairs.len();
        let mut i: usize = 0;
        while i < n
            invariant
                n == self.pairs@.len(),
                i <= n,
                self.pairs@ == old(self).pairs@,
                unique_keys(self.pairs@),
                forall|j: int| 0 <= j < i ==> (#[trigger] self.pairs@[j]).0@ != key@,
            decreases n - i,
        {
            if self.pairs[i].0 == key {
                let ghost ps = self.pairs@;
                proof {
                    lemma_map_of_remove(ps, i as int);
                    ps.remove_ensures(i as int);
                }
                self.pairs.remove(i);
                self.pairs.push((key, value));
                proof {
                    assert(self.pairs@.drop_last() =~= ps.remove(i as int));
                    assert(map_of(self.pairs@) =~= map_of(ps).insert(key@, value@));
                    let ghost q = self.pairs@;
                    assert forall|a: int, b: int|
                        0 <= a < b < q.len() implies (#[trigger] q[a]).0@ != (
                    #[trigger] q[b]).0@ by {
                        if b < q.len() - 1 {
                            if a < i {
                                assert(q[a] == ps[a]);
                            } else {
                                assert(q[a] == ps[a + 1]);
                            }
                            if b < i {
                                assert(q[b] == ps[b]);
                            } else {
                                assert(q[b] == ps[b + 1]);
                            }
                        } else {
                            assert(q[b].0@ == key@);
                            if a < i {
                                assert(q[a] == ps[a]);
                            } else {
                                assert(q[a] == ps[a + 1]);
                            }
                        }
                    }
                }
                return ;
            }
            i = i + 1;
        }
        let ghost ps = self.pairs@;
        self.pairs.push((key, value));
        proof {
            assert(self.pairs@.drop_last() =~= ps);
        }
    }
}

/// A set of key/value pairs built up by a caller and applied to the store as
/// one atomic log entry. A later `put` for the same key overwrites the
/// earlier one within the batch.
#[derive(Debug)]
pub struct WriteBatch {
    pub elements: KvMap,
}

impl Default for WriteBatch {
    fn default() -> (b: WriteBatch)
        ensures
            unique_keys(b.elements.pairs@),
            b.elements@ == Map::<Seq<char>, Seq<char>>::empty(),
            b.elements.pairs@.len() == 0,
    {
        WriteBatch { elements: KvMap::new() }
    }
}

impl WriteBatch {
    /// Records one pending write in the batch.
    pub fn put(&mut self, key: &str, value: &str)
        requires
            unique_keys(old(self).elements.pairs@),
        ensures
            unique_keys(final(self).elements.pairs@),
            final(self).elements@ == old(self).elements@.insert(key@, value@),
    {
        self.elements.insert(key.to_owned(), value.to_owned());
    }
}

/// One undecodable frame spoils the whole sequence.
proof fn lemma_entries_of_bad(fs: Seq<FrameModel>, i: int)
    requires
        0 <= i < fs.len(),
        spec_decode(fs[i].payload) is None,
    ensures
        entries_of(fs) is None,
    decreases fs.len(),
{
    if i < fs.len() - 1 {
        assert(fs.drop_last()[i] == fs[i]);
        lemma_entries_of_bad(fs.drop_last(), i);
    }
}

/// The one selection of segment files the directory holds replays to the
/// end without a mid-log truncated tail or an undecodable payload.
pub open spec fn dir_replayable(prefix: Seq<char>, dir: Seq<NamedFile>) -> bool {
    forall|segs: Seq<crate::segment::WalSegment>|
        {
            &&& #[trigger] crate::segmented_log::selection_of(prefix, dir, segs)
            &&& (forall|i: int, j: int|
                0 <= i < j < segs.len() ==> segs[i].start_index < segs[j].start_index)
            &&& (forall|m: int| 0 <= m < segs.len() ==> segs[m].wf(prefix))
        } ==> crate::segmented_log::rem_ok(segs, 0, 0) && entries_of(
            crate::segmented_log::rem_frames(segs, 0, 0),
        ) is Some
}

/// The store: the in-memory mapping, the log it is rebuilt from, the ghost
/// sequence of entries the log holds, and a ghost mark of whether the log
/// was whole — free of a crash-truncated tail — when the store opened it.
pub struct KVStore {
    pub kv: KvMap,
    pub wal: SegmentedWal,
    pub entries: Ghost<Seq<WalEntryModel>>,
    pub clean: Ghost<bool>,
}

impl View for KVStore {
    type V = Map<Seq<char>, Seq<char>>;

    open spec fn view(&self) -> Map<Seq<char>, Seq<char>> {
        self.kv@
    }
}

impl KVStore {
    /// The store's soundness: the mapping is exactly the replay of the
    /// entries, and on a whole log those entries are exactly what the log's
    /// frames decode to.
    pub open spec fn wf(&self) -> bool {
        &&& self.wal.wf()
        &&& unique_keys(self.kv.pairs@)
        &&& self.kv@ == replay(self.entries@)
        &&& (self.clean@ ==> self.wal.is_clean() && entries_of(self.wal.frames()) == Some(
            self.entries@,
        ))
    }

    /// Opens the log under `cfg` over the directory listing `dir` and
    /// replays every frame, in order, into a fresh mapping.
    pub fn from_walcfg(cfg: WALConfig, dir: Vec<NamedFile>) -> (r: Result<KVStore, WalError>)
        ensures
            match r {
                Ok(s) => {
                    &&& s.wf()
                    &&& s.wal.cfg == cfg
                    &&& s@ == replay(s.entries@)
                    &&& s.clean@ == s.wal.is_clean()
                    &&& (cfg.truncate ==> s.entries@ == Seq::<WalEntryModel>::empty() && s.clean@)
                    &&& (!cfg.truncate && crate::segmented_log::dir_has_segments(cfg.path@, dir@)
                        ==> crate::segmented_log::selection_of(cfg.path@, dir@, s.wal.segments@))
                    &&& (!cfg.truncate && !crate::segmented_log::dir_has_segments(
                        cfg.path@,
                        dir@,
                    ) ==> s.entries@ == Seq::<WalEntryModel>::empty() && s.clean@)
                },
                Err(e) => {
                    &&& !cfg.truncate
                    &&& !(dir_ok(cfg.path@, dir@) && dir_replayable(cfg.path@, dir@))
                    &&& (e == WalError::BadSegmentName || e == WalError::DuplicateSegment || e
                        == WalError::TruncatedTail || e == WalError::Deserialization)
                },
            },
            r is Ok <== cfg.truncate || (dir_ok(cfg.path@, dir@) && dir_replayable(
                cfg.path@,
                dir@,
            )),
    {
        let ghost prefix = cfg.path@;
        let ghost dirv = dir@;
        let ghost truncate = cfg.truncate;
        let mut wal = match SegmentedWal::open(cfg, dir) {
            Ok(w) => w,
            Err(e) => {
                return Err(e);
            },
        };
        let ghost wal0 = wal;
        proof {
            if truncate || !crate::segmented_log::dir_has_segments(prefix, dirv) {
                assert(crate::frame::parse_frames_at(wal0.segments@[0].data@, 0) == (
                    Seq::<FrameModel>::empty(),
                    true,
                ));
                assert(wal0.frames().len() == 0);
                assert(wal0.remaining_ok());
            }
        }
        let mut kv = KvMap::new();
        let ghost mut es: Seq<WalEntryModel> = Seq::empty();
        let ghost mut consumed: Seq<FrameModel> = Seq::empty();
        loop
            invariant
                wal.wf(),
                wal.segments@ == wal0.segments@,
                wal.cfg == wal0.cfg,
                wal0.cfg == cfg,
                cfg.path@ == prefix,
                cfg.truncate == truncate,
                wal0.read_seg == 0 && wal0.read_pos == 0,
                dirv == dir@,
                truncate || !crate::segmented_log::dir_has_segments(prefix, dirv)
                    ==> wal0.frames().len() == 0 && wal0.remaining_ok(),
                !truncate && crate::segmented_log::dir_has_segments(prefix, dirv)
                    ==> crate::segmented_log::selection_of(prefix, dirv, wal0.segments@),
                consumed + wal.remaining() == wal0.frames(),
                wal.remaining_ok() == wal0.remaining_ok(),
                entries_of(consumed) == Some(es),
                unique_keys(kv.pairs@),
                kv@ == replay(es),
            ensures
                wal.wf(),
                wal.segments@ == wal0.segments@,
                wal.cfg == cfg,
                consumed + wal.remaining() == wal0.frames(),
                wal.remaining().len() == 0,
                entries_of(consumed) == Some(es),
                unique_keys(kv.pairs@),
                kv@ == replay(es),
            decreases wal.remaining().len() + 1,
        {
            let ghost rem0 = wal.remaining();
            let frame = match wal.read_next() {
                Ok(Some(frame)) => frame,
                Ok(None) => {
                    proof {
                        assert(consumed =~= wal0.frames());
                    }
                    break ;
                },
                Err(e) => {
                    proof {
                        assert(!wal0.remaining_ok());
                        assert(!truncate && crate::segmented_log::dir_has_segments(prefix, dirv));
                        assert(!dir_replayable(prefix, dirv)) by {
                            if dir_replayable(prefix, dirv) {
                                assert(crate::segmented_log::selection_of(
                                    prefix,
                                    dirv,
                                    wal0.segments@,
                                ));
                                assert(crate::segmented_log::rem_ok(wal0.segments@, 0, 0));
                            }
                        }
                    }
                    return Err(e);
                },
            };
            let ghost fm = frame@;
            let view = match frame.zero_copy() {
                Ok(v) => v,
                Err(e) => {
                    proof {
                        assert(wal0.frames().len() > 0);
                        assert(wal0.frames()[consumed.len() as int] == fm);
                        assert(!truncate && crate::segmented_log::dir_has_segments(prefix, dirv));
                        assert(!dir_replayable(prefix, dirv)) by {
                            if dir_replayable(prefix, dirv) {
                                assert(crate::segmented_log::selection_of(
                                    prefix,
                                    dirv,
                                    wal0.segments@,
                                ));
                                lemma_entries_of_bad(wal0.frames(), consumed.len() as int);
                            }
                        }
                    }
                    return Err(e);
                },
            };
            let ghost em = view@;
            match view {
                WalEntryView::Put(k, v) => {
                    kv.insert(k.to_owned(), v.to_owned());
                    proof {
                        assert(es.push(em).drop_last() =~= es);
                        assert(kv@ == apply_entry(replay(es), em));
                    }
                },
                WalEntryView::Batch(ps) => {
                    let ghost pm = em->Batch_pairs;
                    let ghost base = kv@;
                    let n = ps.len();
                    for i in 0..n
                        invariant
                            n == ps@.len(),
                            pm.len() == n,
                            em == (WalEntryModel::Batch { pairs: pm }),
                            forall|j: int| 0 <= j < n ==> pm[j] == (ps@[j].0@, ps@[j].1@),
                            unique_keys(kv.pairs@),
                            kv@ == apply_pairs(base, pm.take(i as int)),
                    {
                        let p = &ps[i];
                        kv.insert(p.0.to_owned(), p.1.to_owned());
                        proof {
                            lemma_apply_pairs_push(base, pm.take(i as int), pm[i as int]);
                            assert(pm.take(i as int).push(pm[i as int]) =~= pm.take(i + 1));
                        }
                    }
                    proof {
                        assert(pm.take(n as int) =~= pm);
                        assert(es.push(em).drop_last() =~= es);
                        assert(kv@ == apply_entry(replay(es), em));
                    }
                },
            }
            proof {
                assert(rem0 =~= seq![fm] + rem0.skip(1));
                assert((consumed.push(fm)) + rem0.skip(1) =~= consumed + rem0);
                assert(consumed.push(fm).drop_last() =~= consumed);
                consumed = consumed.push(fm);
                es = es.push(em);
            }
        }
        proof {
            assert(consumed =~= wal0.frames());
        }
        let ghost cl = wal.is_clean();
        let s = KVStore { kv, wal, entries: Ghost(es), clean: Ghost(cl) };
        proof {
            if truncate || !crate::segmented_log::dir_has_segments(prefix, dirv) {
                assert(wal0.frames().len() == 0);
                assert(es =~= Seq::<WalEntryModel>::empty());
                assert(s.wal.is_clean()) by {
                    assert(s.wal.segments@[0].clean());
                }
            }
        }
        Ok(s)
    }

    /// Opens (or, with `truncate`, starts over) the store whose log lives
    /// under the path prefix `file`, given the log directory's listing, and
    /// replays the log into memory.
    pub fn new(truncate: bool, file: &str, dir: Vec<NamedFile>) -> (r: Result<KVStore, WalError>)
        ensures
            match r {
                Ok(s) => {
                    &&& s.wf()
                    &&& s.wal.cfg.path@ == file@
                    &&& s.wal.cfg.truncate == truncate
                    &&& s@ == replay(s.entries@)
                    &&& s.clean@ == s.wal.is_clean()
                    &&& (truncate ==> s.entries@ == Seq::<WalEntryModel>::empty() && s.clean@)
                    &&& (!truncate && crate::segmented_log::dir_has_segments(file@, dir@)
                        ==> crate::segmented_log::selection_of(file@, dir@, s.wal.segments@))
                    &&& (!truncate && !crate::segmented_log::dir_has_segments(file@, dir@)
                        ==> s.entries@ == Seq::<WalEntryModel>::empty() && s.clean@)
                },
                Err(e) => {
                    &&& !truncate
                    &&& !(dir_ok(file@, dir@) && dir_replayable(file@, dir@))
                    &&& (e == WalError::BadSegmentName || e == WalError::DuplicateSegment || e
                        == WalError::TruncatedTail || e == WalError::Deserialization)
                },
            },
            r is Ok <== truncate || (dir_ok(file@, dir@) && dir_replayable(file@, dir@)),
    {
        let cfg = WALConfig {
            path: file.to_owned(),
            truncate,
            start_index: 1,
            max_log_size: DEFAULT_MAX_LOG_SIZE,
        };
        Self::from_walcfg(cfg, dir)
    }

    /// Opens an existing store without truncation: `new(false, ..)`.
    pub fn open(file: &str, dir: Vec<NamedFile>) -> (r: Result<KVStore, WalError>)
        ensures
            match r {
                Ok(s) => {
                    &&& s.wf()
                    &&& s.wal.cfg.path@ == file@
                    &&& s@ == replay(s.entries@)
                    &&& s.clean@ == s.wal.is_clean()
                    &&& (crate::segmented_log::dir_has_segments(file@, dir@)
                        ==> crate::segmented_log::selection_of(file@, dir@, s.wal.segments@))
                    &&& (!crate::segmented_log::dir_has_segments(file@, dir@) ==> s.entries@
                        == Seq::<WalEntryModel>::empty() && s.clean@)
                },
                Err(e) => {
                    &&& !(dir_ok(file@, dir@) && dir_replayable(file@, dir@))
                    &&& (e == WalError::BadSegmentName || e == WalError::DuplicateSegment || e
                        == WalError::TruncatedTail || e == WalError::Deserialization)
                },
            },
            r is Ok <== dir_ok(file@, dir@) && dir_replayable(file@, dir@),
    {
        Self::new(false, file, dir)
    }

    /// Looks a key up in memory; never touches the log.
    pub fn get(&self, key: &str) -> (r: Option<&String>)
        ensures
            match r {
                Some(v) => self@.contains_key(key@) && v@ == self@[key@],
                None => !self@.contains_key(key@),
            },
    {
        self.kv.get(key)
    }

    /// Writes one key/value pair: appends a `Put` entry to the log, and only
    /// after the append succeeds applies it to the mapping. On failure the
    /// mapping and the log's index counter are untouched.
    pub fn put(&mut self, key: &str, value: &str) -> (r: Result<(), WalError>)
        requires
            old(self).wf(),
            old(self).wal.last_log_index < u64::MAX,
        ensures
            final(self).wf(),
            final(self).wal.cfg == old(self).wal.cfg,
            final(self).clean@ == old(self).clean@,
            match r {
                Ok(()) => {
                    &&& fits_frame(WalEntryModel::Put { key: key@, value: value@ })
                    &&& final(self)@ == old(self)@.insert(key@, value@)
                    &&& final(self).entries@ == old(self).entries@.push(
                        WalEntryModel::Put { key: key@, value: value@ },
                    )
                    &&& final(self).wal.last_log_index == old(self).wal.last_log_index + 1
                },
                Err(e) => {
                    &&& e == WalError::Serialization
                    &&& !fits_frame(WalEntryModel::Put { key: key@, value: value@ })
                    &&& final(self)@ == old(self)@
                    &&& final(self).entries@ == old(self).entries@
                    &&& final(self).wal.last_log_index == old(self).wal.last_log_index
                },
            },
    {
        let ghost em = WalEntryModel::Put { key: key@, value: value@ };
        let entry = WalEntry::Put(key.to_owned(), value.to_owned());
        assert(entry@ == em);
        match self.wal.write(entry) {
            Ok(()) => {
                self.kv.insert(key.to_owned(), value.to_owned());
                proof {
                    let es2 = self.entries@.push(em);
                    assert(es2.drop_last() =~= self.entries@);
                    assert(self.kv@ == replay(es2));
                    if self.clean@ {
                        crate::codec::lemma_codec_round_trip(em);
                        assert(self.wal.frames().drop_last() =~= old(self).wal.frames());
                    }
                    self.entries@ = es2;
                }
                Ok(())
            },
            Err(e) => Err(e),
        }
    }

    /// Applies a whole batch: appends it as one atomic `Batch` entry, then
    /// applies its pairs to the mapping in order. An empty batch is still
    /// appended and replays to no change.
    pub fn put_batch(&mut self, batch: WriteBatch) -> (r: Result<(), WalError>)
        requires
            old(self).wf(),
            old(self).wal.last_log_index < u64::MAX,
        ensures
            final(self).wf(),
            final(self).wal.cfg == old(self).wal.cfg,
            final(self).clean@ == old(self).clean@,
            match r {
                Ok(()) => {
                    &&& fits_frame(
                        WalEntryModel::Batch {
                            pairs: crate::codec::pairs_view(batch.elements.pairs@),
                        },
                    )
                    &&& final(self)@ == apply_pairs(
                        old(self)@,
                        crate::codec::pairs_view(batch.elements.pairs@),
                    )
                    &&& final(self).entries@ == old(self).entries@.push(
                        WalEntryModel::Batch {
                            pairs: crate::codec::pairs_view(batch.elements.pairs@),
                        },
                    )
                    &&& final(self).wal.last_log_index == old(self).wal.last_log_index + 1
                },
                Err(e) => {
                    &&& e == WalError::Serialization
                    &&& !fits_frame(
                        WalEntryModel::Batch {
                            pairs: crate::codec::pairs_view(batch.elements.pairs@),
                        },
                    )
                    &&& final(self)@ == old(self)@
                    &&& final(self).entries@ == old(self).entries@
                    &&& final(self).wal.last_log_index == old(self).wal.last_log_index
                },
            },
    {
        let ghost pm = crate::codec::pairs_view(batch.elements.pairs@);
        let ghost em = WalEntryModel::Batch { pairs: pm };
        let entry = WalEntry::Batch(clone_pairs(&batch.elements.pairs));
        proof {
            assert(crate::codec::pairs_view(entry->Batch_0@) =~= pm);
        }
        match self.wal.write(entry) {
            Ok(()) => {
                let ghost base = self.kv@;
                let ghost wal2 = self.wal;
                let ghost ent2 = self.entries;
                let ghost cl2 = self.clean;
                let n = batch.elements.pairs.len();
                for i in 0..n
                    invariant
                        n == batch.elements.pairs@.len(),
                        pm.len() == n,
                        pm == crate::codec::pairs_view(batch.elements.pairs@),
                        unique_keys(self.kv.pairs@),
                        self.kv@ == apply_pairs(base, pm.take(i as int)),
                        self.wal == wal2,
                        self.entries == ent2,
                        self.clean == cl2,
                {
                    let p = &batch.elements.pairs[i];
                    self.kv.insert(p.0.clone(), p.1.clone());
                    proof {
                        lemma_apply_pairs_push(base, pm.take(i as int), pm[i as int]);
                        assert(pm.take(i as int).push(pm[i as int]) =~= pm.take(i + 1));
                    }
                }
                proof {
                    assert(pm.take(n as int) =~= pm);
                    let es2 = self.entries@.push(em);
                    assert(es2.drop_last() =~= self.entries@);
                    assert(self.kv@ == replay(es2));
                    if self.clean@ {
                        crate::codec::lemma_codec_round_trip(em);
                        assert(self.wal.frames().drop_last() =~= old(self).wal.frames());
                    }
                    self.entries@ = es2;
                }
                Ok(())
            },
            Err(e) => Err(e),
        }
    }

    /// Writes the log's segments out as directory entries: reopening a store
    /// from them replays the same log.
    pub fn segment_files(&self) -> (r: Vec<NamedFile>)
        ensures
            r@.len() == self.wal.segments@.len(),
            forall|m: int|
                0 <= m < r@.len() ==> (#[trigger] r@[m]).name@ == self.wal.segments@[m].name@
                    && r@[m].data@ == self.wal.segments@[m].data@,
    {
        self.wal.segment_files()
    }
}

/// Copies a pair list, field by field.
fn clone_pairs(ps: &Vec<(String, String)>) -> (r: Vec<(String, String)>)
    ensures
        r@.len() == ps@.len(),
        crate::codec::pairs_view(r@) == crate::codec::pairs_view(ps@),
{
    let mut out: Vec<(String, String)> = Vec::new();
    let n = ps.len();
    for i in 0..n
        invariant
            n == ps@.len(),
            out@.len() == i,
            forall|j: int|
                0 <= j < i ==> (#[trigger] out@[j]).0@ == ps@[j].0@ && out@[j].1@ == ps@[j].1@,
    {
        let p = &ps[i];
        out.push((p.0.clone(), p.1.clone()));
    }
    proof {
        assert(crate::codec::pairs_view(out@) =~= crate::codec::pairs_view(ps@));
    }
    out
}

} // verus!
