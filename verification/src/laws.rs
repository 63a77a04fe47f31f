//! The library's global laws, proved once over the models the contracts
//! speak in: the segment selection of a directory is unique, so replay is
//! deterministic; reopening a store on the files it wrote restores its
//! state; the last write to a key wins; and a batch is visible atomically.

use vstd::prelude::*;

verus! {

use crate::codec::WalEntryModel;
use crate::kv_store::{apply_entry, apply_pairs, replay, KVStore};
use crate::names::{lemma_segment_name_injective, spec_segment_name};
use crate::segment::WalSegment;
use crate::segmented_log::{
    dir_ok,
    is_seg_name,
    lemma_seg_matches_elim,
    lemma_seg_matches_intro,
    seg_matches,
    selection_of,
};
use crate::NamedFile;

/// Strictly ascending start indices.
pub open spec fn sorted_segs(segs: Seq<WalSegment>) -> bool {
    forall|i: int, j: int|
        0 <= i < j < segs.len() ==> (#[trigger] segs[i]).start_index < (
        #[trigger] segs[j]).start_index
}

/// Every segment named for its own start index under `prefix`.
pub open spec fn named_segs(prefix: Seq<char>, segs: Seq<WalSegment>) -> bool {
    forall|m: int| 0 <= m < segs.len() ==> (#[trigger] segs[m]).wf(prefix)
}

/// A selection restricted to indices above `lo`.
spec fn sel_above(prefix: Seq<char>, dir: Seq<NamedFile>, segs: Seq<WalSegment>, lo: int) -> bool {
    &&& forall|k: int| #![trigger dir[k]]
        0 <= k < dir.len() && (exists|i: u64|
            dir[k].name@ == spec_segment_name(prefix, i) && i > lo) ==> exists|m: int|
            #![trigger segs[m]]
            0 <= m < segs.len() && seg_matches(segs[m], dir[k])
    &&& forall|m: int| #![trigger segs[m]]
        0 <= m < segs.len() ==> segs[m].start_index > lo && (exists|k: int|
            #![trigger dir[k]]
            0 <= k < dir.len() && seg_matches(segs[m], dir[k]))
}

/// An empty selection above `lo` forces every other one empty too.
proof fn lemma_sel_above_empty(
    prefix: Seq<char>,
    dir: Seq<NamedFile>,
    s1: Seq<WalSegment>,
    s2: Seq<WalSegment>,
    lo: int,
)
    requires
        sel_above(prefix, dir, s1, lo),
        sel_above(prefix, dir, s2, lo),
        named_segs(prefix, s2),
        s1.len() == 0,
    ensures
        s2.len() == 0,
{
    if s2.len() > 0 {
        assert(s2[0].start_index > lo);
        let k0 = choose|k: int| 0 <= k < dir.len() && seg_matches(#[trigger] s2[0], dir[k]);
        lemma_seg_matches_elim(s2[0], dir[k0]);
        assert(s2[0].wf(prefix));
        assert(dir[k0].name@ == spec_segment_name(prefix, s2[0].start_index) && s2[0].start_index
            > lo);
        assert(exists|m: int| 0 <= m < s1.len() && seg_matches(#[trigger] s1[m], dir[k0]));
        assert(false);
    }
}

/// The heads of two sorted selections above `lo` carry the same segment.
proof fn lemma_sel_above_heads(
    prefix: Seq<char>,
    dir: Seq<NamedFile>,
    s1: Seq<WalSegment>,
    s2: Seq<WalSegment>,
    lo: int,
)
    requires
        dir_ok(prefix, dir),
        sel_above(prefix, dir, s1, lo),
        sel_above(prefix, dir, s2, lo),
        sorted_segs(s1),
        sorted_segs(s2),
        named_segs(prefix, s1),
        named_segs(prefix, s2),
        s1.len() > 0,
        s2.len() > 0,
    ensures
        s1[0].start_index == s2[0].start_index,
        s1[0].name@ == s2[0].name@,
        s1[0].data@ == s2[0].data@,
{
    let h1 = s1[0];
    let h2 = s2[0];
    let k1 = choose|k: int| 0 <= k < dir.len() && seg_matches(#[trigger] s1[0], dir[k]);
    let k2 = choose|k: int| 0 <= k < dir.len() && seg_matches(#[trigger] s2[0], dir[k]);
    lemma_seg_matches_elim(h1, dir[k1]);
    lemma_seg_matches_elim(h2, dir[k2]);
    assert(h1.wf(prefix) && h2.wf(prefix));
    // dir[k1] is covered by s2 somewhere, with the same start index
    assert(dir[k1].name@ == spec_segment_name(prefix, h1.start_index) && h1.start_index > lo);
    let m2 = choose|m: int| 0 <= m < s2.len() && seg_matches(#[trigger] s2[m], dir[k1]);
    lemma_seg_matches_elim(s2[m2], dir[k1]);
    assert(s2[m2].wf(prefix));
    lemma_segment_name_injective(prefix, s2[m2].start_index, h1.start_index);
    assert(s2[m2].start_index == h1.start_index);
    if m2 > 0 {
        assert(s2[0].start_index < s2[m2].start_index);
    }
    assert(h2.start_index <= h1.start_index);
    // and symmetrically
    assert(dir[k2].name@ == spec_segment_name(prefix, h2.start_index) && h2.start_index > lo);
    let m1 = choose|m: int| 0 <= m < s1.len() && seg_matches(#[trigger] s1[m], dir[k2]);
    lemma_seg_matches_elim(s1[m1], dir[k2]);
    assert(s1[m1].wf(prefix));
    lemma_segment_name_injective(prefix, s1[m1].start_index, h2.start_index);
    if m1 > 0 {
        assert(s1[0].start_index < s1[m1].start_index);
    }
    assert(h1.start_index <= h2.start_index);
    assert(h1.start_index == h2.start_index);
    assert(h1.name@ == h2.name@);
    // so both heads hold the bytes of the same directory entry
    if m2 > 0 {
        assert(s2[0].start_index < s2[m2].start_index);
        assert(false);
    }
    assert(s2[0].data@ == dir[k1].data@);
    assert(h1.data@ == h2.data@);
}

/// Behind its head, a sorted selection is the selection above the head's
/// own start index.
proof fn lemma_sel_above_tail(prefix: Seq<char>, dir: Seq<NamedFile>, s: Seq<WalSegment>, lo: int)
    requires
        sel_above(prefix, dir, s, lo),
        sorted_segs(s),
        named_segs(prefix, s),
        s.len() > 0,
    ensures
        sel_above(prefix, dir, s.drop_first(), s[0].start_index as int),
        sorted_segs(s.drop_first()),
        named_segs(prefix, s.drop_first()),
{
    let t = s.drop_first();
    let lo2 = s[0].start_index as int;
    assert forall|k: int| #![trigger dir[k]]
        0 <= k < dir.len() && (exists|i: u64|
            dir[k].name@ == spec_segment_name(prefix, i) && i > lo2) implies exists|m: int|
        #![trigger t[m]]
        0 <= m < t.len() && seg_matches(t[m], dir[k]) by {
        let i = choose|i: u64| dir[k].name@ == spec_segment_name(prefix, i) && i > lo2;
        assert(i > lo);
        let m = choose|m: int| 0 <= m < s.len() && seg_matches(#[trigger] s[m], dir[k]);
        lemma_seg_matches_elim(s[m], dir[k]);
        assert(s[m].wf(prefix));
        lemma_segment_name_injective(prefix, s[m].start_index, i);
        if m == 0 {
            assert(s[0].start_index == i);
            assert(false);
        }
        assert(t[m - 1] == s[m]);
        lemma_seg_matches_intro(t[m - 1], dir[k]);
    }
    assert forall|m: int| #![trigger t[m]] 0 <= m < t.len() implies t[m].start_index > lo2 && (
    exists|k: int| #![trigger dir[k]] 0 <= k < dir.len() && seg_matches(t[m], dir[k])) by {
        assert(t[m] == s[m + 1]);
        assert(s[0].start_index < s[m + 1].start_index);
        let k = choose|k: int| 0 <= k < dir.len() && seg_matches(#[trigger] s[m + 1], dir[k]);
        lemma_seg_matches_elim(s[m + 1], dir[k]);
        lemma_seg_matches_intro(t[m], dir[k]);
    }
    assert(forall|i: int, j: int|
        0 <= i < j < t.len() ==> t[i] == s[i + 1] && #[trigger] t[j] == s[j + 1] && (
        #[trigger] t[i]).start_index < t[j].start_index);
    assert(forall|m: int| 0 <= m < t.len() ==> (#[trigger] t[m]) == s[m + 1]);
}

proof fn lemma_selection_unique_rec(
    prefix: Seq<char>,
    dir: Seq<NamedFile>,
    s1: Seq<WalSegment>,
    s2: Seq<WalSegment>,
    lo: int,
)
    requires
        dir_ok(prefix, dir),
        sel_above(prefix, dir, s1, lo),
        sel_above(prefix, dir, s2, lo),
        sorted_segs(s1),
        sorted_segs(s2),
        named_segs(prefix, s1),
        named_segs(prefix, s2),
    ensures
        s1.len() == s2.len(),
        forall|m: int|
            0 <= m < s1.len() ==> (#[trigger] s1[m]).name@ == s2[m].name@ && s1[m].data@
                == s2[m].data@ && s1[m].start_index == s2[m].start_index,
    decreases s1.len(),
{
    if s1.len() == 0 {
        lemma_sel_above_empty(prefix, dir, s1, s2, lo);
    } else if s2.len() == 0 {
        lemma_sel_above_empty(prefix, dir, s2, s1, lo);
    } else {
        lemma_sel_above_heads(prefix, dir, s1, s2, lo);
        let t1 = s1.drop_first();
        let t2 = s2.drop_first();
        lemma_sel_above_tail(prefix, dir, s1, lo);
        lemma_sel_above_tail(prefix, dir, s2, lo);
        assert(s2[0].start_index as int == s1[0].start_index as int);
        lemma_selection_unique_rec(prefix, dir, t1, t2, s1[0].start_index as int);
        assert forall|m: int|
            0 <= m < s1.len() implies (#[trigger] s1[m]).name@ == s2[m].name@ && s1[m].data@
            == s2[m].data@ && s1[m].start_index == s2[m].start_index by {
            if m > 0 {
                assert(t1[m - 1] == s1[m] && t2[m - 1] == s2[m]);
                assert(t1[m - 1].name@ == t2[m - 1].name@ && t1[m - 1].data@ == t2[m - 1].data@
                    && t1[m - 1].start_index == t2[m - 1].start_index);
            }
        }
    }
}

/// A directory has one segment selection: any two sorted, well-named
/// selections of it agree segment by segment.
pub proof fn lemma_selection_unique(
    prefix: Seq<char>,
    dir: Seq<NamedFile>,
    s1: Seq<WalSegment>,
    s2: Seq<WalSegment>,
)
    requires
        dir_ok(prefix, dir),
        selection_of(prefix, dir, s1),
        selection_of(prefix, dir, s2),
        sorted_segs(s1),
        sorted_segs(s2),
        named_segs(prefix, s1),
        named_segs(prefix, s2),
    ensures
        s1.len() == s2.len(),
        forall|m: int|
            0 <= m < s1.len() ==> (#[trigger] s1[m]).name@ == s2[m].name@ && s1[m].data@
                == s2[m].data@ && s1[m].start_index == s2[m].start_index,
{
    assert(sel_above(prefix, dir, s1, -1)) by {
        assert forall|k: int| #![trigger dir[k]]
            0 <= k < dir.len() && (exists|i: u64|
                dir[k].name@ == spec_segment_name(prefix, i) && i > -1) implies exists|m: int|
            #![trigger s1[m]]
            0 <= m < s1.len() && seg_matches(s1[m], dir[k]) by {
            assert(is_seg_name(prefix, dir[k].name@));
        }
        assert forall|m: int| #![trigger s1[m]] 0 <= m < s1.len() implies s1[m].start_index > -1
            && (exists|k: int| #![trigger dir[k]] 0 <= k < dir.len() && seg_matches(
            s1[m],
            dir[k],
        )) by {}
    }
    assert(sel_above(prefix, dir, s2, -1)) by {
        assert forall|k: int| #![trigger dir[k]]
            0 <= k < dir.len() && (exists|i: u64|
                dir[k].name@ == spec_segment_name(prefix, i) && i > -1) implies exists|m: int|
            #![trigger s2[m]]
            0 <= m < s2.len() && seg_matches(s2[m], dir[k]) by {
            assert(is_seg_name(prefix, dir[k].name@));
        }
        assert forall|m: int| #![trigger s2[m]] 0 <= m < s2.len() implies s2[m].start_index > -1
            && (exists|k: int| #![trigger dir[k]] 0 <= k < dir.len() && seg_matches(
            s2[m],
            dir[k],
        )) by {}
    }
    lemma_selection_unique_rec(prefix, dir, s1, s2, -1);
}

/// Replay determinism: two stores opened over the same directory hold the
/// same entries and the same mapping. Stated for logs without a
/// crash-truncated tail, whose content is the whole of their frames.
pub proof fn lemma_replay_deterministic(
    prefix: Seq<char>,
    dir: Seq<NamedFile>,
    st1: KVStore,
    st2: KVStore,
)
    requires
        st1.wf(),
        st2.wf(),
        st1.clean@,
        st2.clean@,
        dir_ok(prefix, dir),
        selection_of(prefix, dir, st1.wal.segments@),
        selection_of(prefix, dir, st2.wal.segments@),
        st1.wal.cfg.path@ == prefix,
        st2.wal.cfg.path@ == prefix,
    ensures
        st1.entries@ == st2.entries@,
        st1@ == st2@,
{
    let s1 = st1.wal.segments@;
    let s2 = st2.wal.segments@;
    assert(sorted_segs(s1));
    assert(sorted_segs(s2));
    assert(named_segs(prefix, s1));
    assert(named_segs(prefix, s2));
    lemma_selection_unique(prefix, dir, s1, s2);
    crate::segmented_log::lemma_rem_data_eq(s1, s2, 0, 0);
    assert(st1.wal.frames() == st2.wal.frames());
    assert(Some(st1.entries@) == Some(st2.entries@));
}

/// Durability across a close and reopen: a store opened over the very files
/// a clean store wrote holds the same entries and the same mapping.
pub proof fn lemma_store_reopen(st: KVStore, files: Seq<NamedFile>, st2: KVStore)
    requires
        st.wf(),
        st.clean@,
        files.len() == st.wal.segments@.len(),
        forall|m: int|
            0 <= m < files.len() ==> (#[trigger] files[m]).name@ == st.wal.segments@[m].name@
                && files[m].data@ == st.wal.segments@[m].data@,
        st2.wf(),
        st2.clean@ == st2.wal.is_clean(),
        selection_of(st.wal.cfg.path@, files, st2.wal.segments@),
        st2.wal.cfg.path@ == st.wal.cfg.path@,
    ensures
        st2.entries@ == st.entries@,
        st2@ == st@,
{
    let prefix = st.wal.cfg.path@;
    let s1 = st.wal.segments@;
    let s2 = st2.wal.segments@;
    assert(dir_ok(prefix, files)) by {
        assert forall|k: int|
            0 <= k < files.len() implies !crate::segmented_log::bad_seg_name(
            prefix,
            #[trigger] files[k].name@,
        ) by {
            assert(s1[k].wf(prefix));
            assert(files[k].name@ == spec_segment_name(prefix, s1[k].start_index));
        }
        assert forall|k: int, l: int|
            0 <= k < l < files.len() && is_seg_name(prefix, #[trigger] files[k].name@) implies
            files[k].name@ != #[trigger] files[l].name@ by {
            if files[k].name@ == files[l].name@ {
                assert(s1[k].wf(prefix) && s1[l].wf(prefix));
                lemma_segment_name_injective(prefix, s1[k].start_index, s1[l].start_index);
                assert(s1[k].start_index < s1[l].start_index);
            }
        }
    }
    assert(selection_of(prefix, files, s1)) by {
        assert forall|k: int| #![trigger files[k]]
            0 <= k < files.len() && is_seg_name(prefix, files[k].name@) implies exists|m: int|
            #![trigger s1[m]]
            0 <= m < s1.len() && seg_matches(s1[m], files[k]) by {
            lemma_seg_matches_intro(s1[k], files[k]);
        }
        assert forall|m: int| #![trigger s1[m]] 0 <= m < s1.len() implies exists|k: int|
            #![trigger files[k]]
            0 <= k < files.len() && seg_matches(s1[m], files[k]) by {
            lemma_seg_matches_intro(s1[m], files[m]);
        }
    }
    assert(sorted_segs(s1) && sorted_segs(s2));
    assert(named_segs(prefix, s1) && named_segs(prefix, s2));
    lemma_selection_unique(prefix, files, s1, s2);
    crate::segmented_log::lemma_rem_data_eq(s1, s2, 0, 0);
    assert(st2.wal.is_clean()) by {
        assert forall|i: int|
            0 <= i < s2.len() implies (#[trigger] s2[i]).clean() by {
            assert(s2[i].data@ == s1[i].data@);
            assert(s1[i].clean());
        }
    }
    assert(st.wal.frames() == st2.wal.frames());
    assert(Some(st.entries@) == Some(st2.entries@));
}

/// Last write wins: after two writes to one key, the mapping holds the
/// later value, whatever the log held before them.
pub proof fn lemma_last_write_wins(es: Seq<WalEntryModel>, k: Seq<char>, a: Seq<char>, b: Seq<char>)
    ensures
        replay(
            es.push(WalEntryModel::Put { key: k, value: a }).push(
                WalEntryModel::Put { key: k, value: b },
            ),
        ).contains_key(k),
        replay(
            es.push(WalEntryModel::Put { key: k, value: a }).push(
                WalEntryModel::Put { key: k, value: b },
            ),
        )[k] == b,
{
    let es1 = es.push(WalEntryModel::Put { key: k, value: a });
    let es2 = es1.push(WalEntryModel::Put { key: k, value: b });
    assert(es2.drop_last() =~= es1);
    assert(replay(es2) == apply_entry(replay(es1), WalEntryModel::Put { key: k, value: b }));
}

/// Keys a batch does not touch keep their bindings.
pub proof fn lemma_batch_other_keys(
    m: Map<Seq<char>, Seq<char>>,
    ps: Seq<(Seq<char>, Seq<char>)>,
    k: Seq<char>,
)
    requires
        forall|j: int| 0 <= j < ps.len() ==> (#[trigger] ps[j]).0 != k,
    ensures
        apply_pairs(m, ps).contains_key(k) == m.contains_key(k),
        m.contains_key(k) ==> apply_pairs(m, ps)[k] == m[k],
    decreases ps.len(),
{
    if ps.len() > 0 {
        assert(forall|j: int|
            0 <= j < ps.drop_first().len() ==> (#[trigger] ps.drop_first()[j]).0 != k) by {
            assert(forall|j: int|
                0 <= j < ps.drop_first().len() ==> (#[trigger] ps.drop_first()[j]) == ps[j + 1]);
        }
        lemma_batch_other_keys(m.insert(ps[0].0, ps[0].1), ps.drop_first(), k);
    }
}

/// Batch atomic visibility: once a batch applies, every key it carries is
/// bound to the batch's last value for that key — never to half of the
/// batch.
pub proof fn lemma_batch_visibility(
    m: Map<Seq<char>, Seq<char>>,
    ps: Seq<(Seq<char>, Seq<char>)>,
    i: int,
)
    requires
        0 <= i < ps.len(),
        forall|j: int| i < j < ps.len() ==> (#[trigger] ps[j]).0 != ps[i].0,
    ensures
        apply_pairs(m, ps).contains_key(ps[i].0),
        apply_pairs(m, ps)[ps[i].0] == ps[i].1,
    decreases ps.len(),
{
    if i == 0 {
        assert(forall|j: int|
            0 <= j < ps.drop_first().len() ==> (#[trigger] ps.drop_first()[j]) == ps[j + 1]
                && ps.drop_first()[j].0 != ps[0].0);
        lemma_batch_other_keys(m.insert(ps[0].0, ps[0].1), ps.drop_first(), ps[0].0);
    } else {
        assert(forall|j: int|
            0 <= j < ps.drop_first().len() ==> (#[trigger] ps.drop_first()[j]) == ps[j + 1]);
        assert(ps.drop_first()[i - 1] == ps[i]);
        lemma_batch_visibility(m.insert(ps[0].0, ps[0].1), ps.drop_first(), i - 1);
    }
}

/// Index-contiguous frames, starting at `first`.
pub open spec fn gapless_from(fs: Seq<crate::frame::FrameModel>, first: int) -> bool {
    forall|i: int| 0 <= i < fs.len() ==> (#[trigger] fs[i]).index == first + i
}

/// Index monotonicity: with the log's counter standing at the number of
/// frames written so far, the appended frame continues the index sequence
/// one past the previous append, with no gap — whether or not the append
/// rolled the log over.
pub proof fn lemma_index_gapless(
    fs: Seq<crate::frame::FrameModel>,
    e: WalEntryModel,
    last: u64,
)
    requires
        gapless_from(fs, 1),
        last == fs.len(),
        last < u64::MAX,
    ensures
        gapless_from(fs.push(crate::segmented_log::written_frame(last, e)), 1),
{
    assert(fs.push(crate::segmented_log::written_frame(last, e))[last as int].index == last + 1);
}


} // verus!
