//! What holds of a store over several operations.
//!
//! Nothing here runs. The functions state and prove how the state of a store and
//! the frames of its data file belong together.

use crate::data_file::DataError;
use crate::frame_jsonl::{FrameStatus, FrameView};
use crate::mv2x::{FrameIndex, FrameOffset, Mv2xIndex, TimeEntry};
use crate::mv2x_file::IndexFile;
use crate::split_memvid::{SplitMemvid, StoreView};
use vstd::prelude::*;

verus! {

/// Whether each frame has a higher ID than those before it.
pub open spec fn increasing(frames: Seq<(u64, FrameView)>) -> bool {
    forall|i: int, j: int|
        0 <= i < j < frames.len() ==> (#[trigger] frames[i]).1.frame_id < (
        #[trigger] frames[j]).1.frame_id
}

/// Whether two indices hold the same frames.
pub open spec fn same_entries(a: FrameIndex, b: FrameIndex) -> bool {
    &&& a.offsets == b.offsets
    &&& a.time_entries == b.time_entries
    &&& a.header.frame_count == b.header.frame_count
    &&& a.header.last_indexed_frame_id == b.header.last_indexed_frame_id
}

/// Whether the state of a store is that of a data file with these frames.
pub open spec fn agrees(store: StoreView, frames: Seq<(u64, FrameView)>) -> bool {
    &&& store.next_frame_id == crate::split_memvid::id_after(
        crate::split_memvid::last_id(frames),
    )
    &&& store.inactive == crate::split_memvid::inactive_of(frames)
    &&& same_entries(store.index, crate::split_memvid::built(frames))
}

/// `frames` without those of one ID.
pub open spec fn without_id(frames: Seq<FrameView>, id: u64) -> Seq<FrameView>
    decreases frames.len(),
{
    if frames.len() == 0 {
        Seq::empty()
    } else if frames.last().frame_id == id {
        without_id(frames.drop_last(), id)
    } else {
        without_id(frames.drop_last(), id).push(frames.last())
    }
}

pub proof fn lemma_built(frames: Seq<(u64, FrameView)>)
    ensures
        crate::split_memvid::built(frames).offsets.len() == frames.len(),
        crate::split_memvid::built(frames).header.last_indexed_frame_id
            == crate::split_memvid::last_id(frames),
        crate::split_memvid::built(frames).header.frame_count == frames.len() as u64,
        forall|k: int|
            0 <= k < frames.len() ==> #[trigger] crate::split_memvid::built(frames).offsets[k] == (
            FrameOffset { frame_id: frames[k].1.frame_id, byte_offset: frames[k].0 }),
    decreases frames.len(),
{
    if frames.len() > 0 {
        let front = frames.drop_last();
        lemma_built(front);
        assert forall|k: int| 0 <= k < frames.len() implies #[trigger] crate::split_memvid::built(
            frames,
        ).offsets[k] == (FrameOffset {
            frame_id: frames[k].1.frame_id,
            byte_offset: frames[k].0,
        }) by {
            if k < front.len() {
                assert(crate::split_memvid::built(front).offsets[k] == (FrameOffset {
                    frame_id: front[k].1.frame_id,
                    byte_offset: front[k].0,
                }));
            }
        }
    }
}

proof fn lemma_offset_found(offsets: Seq<FrameOffset>, k: int)
    requires
        0 <= k < offsets.len(),
        forall|i: int| 0 <= i < k ==> (#[trigger] offsets[i]).frame_id != offsets[k].frame_id,
    ensures
        crate::mv2x::offset_in(offsets, offsets[k].frame_id) == Some(offsets[k].byte_offset),
    decreases k,
{
    if k > 0 {
        assert(offsets[0].frame_id != offsets[k].frame_id);
        let rest = offsets.drop_first();
        assert forall|i: int| 0 <= i < k - 1 implies (#[trigger] rest[i]).frame_id != rest[k
            - 1].frame_id by {
            assert(rest[i] == offsets[i + 1]);
        }
        lemma_offset_found(rest, k - 1);
    }
}

proof fn lemma_offset_missing(offsets: Seq<FrameOffset>, frame_id: u64)
    requires
        forall|i: int| 0 <= i < offsets.len() ==> (#[trigger] offsets[i]).frame_id != frame_id,
    ensures
        crate::mv2x::offset_in(offsets, frame_id) is None,
    decreases offsets.len(),
{
    if offsets.len() > 0 {
        assert(offsets[0].frame_id != frame_id);
        let rest = offsets.drop_first();
        assert forall|i: int| 0 <= i < rest.len() implies (#[trigger] rest[i]).frame_id
            != frame_id by {
            assert(rest[i] == offsets[i + 1]);
        }
        lemma_offset_missing(rest, frame_id);
    }
}

/// Every frame of the data file is found at the offset at which it starts, and no
/// other frame is found.
pub proof fn stored_frames_are_found(
    store: StoreView,
    frames: Seq<(u64, FrameView)>,
    frame_id: u64,
)
    requires
        agrees(store, frames),
        increasing(frames),
    ensures
        crate::mv2x::offset_in(store.index.offsets, frame_id) is Some <==> exists|k: int|
            0 <= k < frames.len() && (#[trigger] frames[k]).1.frame_id == frame_id,
        forall|k: int|
            0 <= k < frames.len() && (#[trigger] frames[k]).1.frame_id == frame_id
                ==> crate::mv2x::offset_in(store.index.offsets, frame_id) == Some(frames[k].0),
{
    let offsets = store.index.offsets;
    lemma_built(frames);
    if exists|k: int| 0 <= k < frames.len() && (#[trigger] frames[k]).1.frame_id == frame_id {
        let k = choose|k: int|
            0 <= k < frames.len() && (#[trigger] frames[k]).1.frame_id == frame_id;
        assert(offsets[k].frame_id == frame_id);
        assert forall|i: int| 0 <= i < k implies (#[trigger] offsets[i]).frame_id
            != offsets[k].frame_id by {
            assert(frames[i].1.frame_id < frames[k].1.frame_id);
        }
        lemma_offset_found(offsets, k);
        assert forall|j: int|
            0 <= j < frames.len() && (#[trigger] frames[j]).1.frame_id == frame_id implies j
            == k by {
            if j < k {
                assert(frames[j].1.frame_id < frames[k].1.frame_id);
            } else if k < j {
                assert(frames[k].1.frame_id < frames[j].1.frame_id);
            }
        }
    } else {
        assert forall|i: int| 0 <= i < offsets.len() implies (#[trigger] offsets[i]).frame_id
            != frame_id by {
            assert(frames[i].1.frame_id != frame_id);
        }
        lemma_offset_missing(offsets, frame_id);
    }
}

/// A store stays in step with its data file when a frame is appended, and the
/// frame has a higher ID than all before it.
pub proof fn appending_keeps_step(
    store: StoreView,
    frames: Seq<(u64, FrameView)>,
    offset: u64,
    frame: FrameView,
)
    requires
        agrees(store, frames),
        increasing(frames),
        store.next_frame_id < u64::MAX,
        frame.frame_id == store.next_frame_id,
    ensures
        agrees(store.appended(offset, frame), frames.push((offset, frame))),
        increasing(frames.push((offset, frame))),
{
    let all = frames.push((offset, frame));
    assert(all.drop_last() =~= frames);
    assert forall|i: int, j: int| 0 <= i < j < all.len() implies (#[trigger] all[i]).1.frame_id < (
    #[trigger] all[j]).1.frame_id by {
        if j < frames.len() {
            assert(frames[i].1.frame_id < frames[j].1.frame_id);
        } else {
            let n = frames.len() - 1;
            assert(frames[i].1.frame_id <= frames[n].1.frame_id);
        }
    }
}

/// Rebuilding the index from the data file gives the index that was kept while
/// the file was written.
pub proof fn rebuilding_changes_nothing(store: StoreView, frames: Seq<(u64, FrameView)>)
    requires
        agrees(store, frames),
    ensures
        agrees(store.rebuilt(frames), frames),
        same_entries(store.rebuilt(frames).index, store.index),
        store.rebuilt(frames).inactive == store.inactive,
        store.rebuilt(frames).next_frame_id == store.next_frame_id,
{
}

/// Whatever the index held, a store is in step with its data file once it has been
/// reconciled with it, and does not need to be again.
pub proof fn reconciling_brings_in_step(store: StoreView, frames: Seq<(u64, FrameView)>)
    requires
        store.next_frame_id == crate::split_memvid::id_after(
            crate::split_memvid::last_id(frames),
        ),
    ensures
        agrees(store.reconciled(frames), frames),
        !crate::mv2x::lags(
            store.reconciled(frames).index.header.last_indexed_frame_id,
            crate::split_memvid::last_id(frames),
        ),
{
    lemma_built(frames);
}

/// A store whose index file speaks of another last frame than its data file, be it
/// an earlier or a later one, is opened in step with the data file.
pub proof fn reopening_brings_in_step(index: FrameIndex, frames: Seq<(u64, FrameView)>)
    requires
        frames.len() > 0 ==> frames.last().1.frame_id < u64::MAX,
        crate::mv2x::lags(
            index.header.last_indexed_frame_id,
            crate::split_memvid::last_id(frames),
        ),
    ensures
        agrees(
            StoreView::opened(crate::split_memvid::last_id(frames), index, frames),
            frames,
        ),
{
    lemma_built(frames);
}

/// An index that was written while the data file held its first `n` frames, and
/// that is loaded again with the file as it is now, is brought in step with it.
pub proof fn reopening_catches_up(
    index: FrameIndex,
    frames: Seq<(u64, FrameView)>,
    n: int,
)
    requires
        0 <= n <= frames.len(),
        increasing(frames),
        frames.len() > 0 ==> frames.last().1.frame_id < u64::MAX,
        same_entries(index, crate::split_memvid::built(frames.take(n))),
    ensures
        agrees(
            StoreView::opened(crate::split_memvid::last_id(frames), index, frames),
            frames,
        ),
        !crate::mv2x::lags(
            StoreView::opened(
                crate::split_memvid::last_id(frames),
                index,
                frames,
            ).index.header.last_indexed_frame_id,
            crate::split_memvid::last_id(frames),
        ),
{
    let known = frames.take(n);
    lemma_built(known);
    lemma_built(frames);
    if n > 0 {
        assert(known.last() == frames[n - 1]);
    }
    if n == frames.len() {
        assert(known =~= frames);
    } else if n > 0 {
        assert(frames[n - 1].1.frame_id < frames[frames.len() - 1].1.frame_id);
    }
}

/// A store whose index file is missing or cannot be read is opened in step with
/// its data file.
pub proof fn reopening_without_index_rebuilds(
    index_file: Option<Seq<u8>>,
    frames: Seq<(u64, FrameView)>,
)
    requires
        increasing(frames),
        frames.len() > 0 ==> frames.last().1.frame_id < u64::MAX,
        index_file matches Some(bytes) ==> crate::mv2x_file::parsed(bytes) is Err,
    ensures
        agrees(
            StoreView::opened(
                crate::split_memvid::last_id(frames),
                crate::split_memvid::loaded_index(index_file, frames),
                frames,
            ),
            frames,
        ),
{
    assert(frames.take(frames.len() as int) =~= frames);
    reopening_catches_up(
        crate::split_memvid::loaded_index(index_file, frames),
        frames,
        frames.len() as int,
    );
}

proof fn lemma_offset_kept(offsets: Seq<FrameOffset>, more: FrameOffset, frame_id: u64)
    ensures
        crate::mv2x::offset_in(offsets, frame_id) is Some ==> crate::mv2x::offset_in(
            offsets.push(more),
            frame_id,
        ) == crate::mv2x::offset_in(offsets, frame_id),
        more.frame_id == frame_id ==> crate::mv2x::offset_in(offsets.push(more), frame_id) is Some,
    decreases offsets.len(),
{
    let all = offsets.push(more);
    if offsets.len() > 0 {
        lemma_offset_kept(offsets.drop_first(), more, frame_id);
        assert(all.drop_first() =~= offsets.drop_first().push(more));
    } else {
        assert(all[0] == more);
    }
}

/// Whatever the index held, exactly the frames of the data file are found once the
/// store has been reconciled with it.
pub proof fn reconciling_is_exact(store: StoreView, frames: Seq<(u64, FrameView)>, id: u64)
    ensures
        crate::mv2x::offset_in(store.reconciled(frames).index.offsets, id) is Some <==> exists|k: int|
            0 <= k < frames.len() && (#[trigger] frames[k]).1.frame_id == id,
    decreases frames.len(),
{
    let offsets = crate::split_memvid::built(frames).offsets;
    lemma_built(frames);
    if exists|k: int| 0 <= k < frames.len() && (#[trigger] frames[k]).1.frame_id == id {
        let k = choose|k: int| 0 <= k < frames.len() && (#[trigger] frames[k]).1.frame_id == id;
        lemma_offset_known(offsets, k);
    } else {
        assert forall|i: int| 0 <= i < offsets.len() implies (#[trigger] offsets[i]).frame_id
            != id by {
            assert(frames[i].1.frame_id != id);
        }
        lemma_offset_missing(offsets, id);
    }
}

proof fn lemma_offset_known(offsets: Seq<FrameOffset>, k: int)
    requires
        0 <= k < offsets.len(),
    ensures
        crate::mv2x::offset_in(offsets, offsets[k].frame_id) is Some,
    decreases k,
{
    if k > 0 {
        lemma_offset_known(offsets.drop_first(), k - 1);
    }
}

/// A store is in step with its data file when it is opened with an index file
/// that was written while the data file held its first `n` frames.
pub proof fn reopening_after_flush(
    file: IndexFile,
    frames: Seq<(u64, FrameView)>,
    n: int,
)
    requires
        0 <= n <= frames.len(),
        increasing(frames),
        frames.len() > 0 ==> frames.last().1.frame_id < u64::MAX,
        crate::mv2x_file::file_fits(file),
        same_entries(
            (FrameIndex {
                header: file.header,
                offsets: file.offsets,
                time_entries: file.time_entries,
            }),
            crate::split_memvid::built(frames.take(n)),
        ),
    ensures
        agrees(
            StoreView::opened(
                crate::split_memvid::last_id(frames),
                crate::split_memvid::loaded_index(
                    Some(crate::mv2x_file::file_bytes(file)),
                    frames,
                ),
                frames,
            ),
            frames,
        ),
{
    crate::mv2x_file::written_index_is_read(file);
    reopening_catches_up(
        crate::split_memvid::loaded_index(Some(crate::mv2x_file::file_bytes(file)), frames),
        frames,
        n,
    );
}

/// The time entries of a data file's index are in chronological order.
pub proof fn built_index_is_in_time_order(frames: Seq<(u64, FrameView)>)
    ensures
        crate::mv2x::in_time_order(crate::split_memvid::built(frames).time_entries),
    decreases frames.len(),
{
    if frames.len() > 0 {
        built_index_is_in_time_order(frames.drop_last());
        let frame = frames.last().1;
        crate::mv2x::adding_keeps_time_order(
            crate::split_memvid::built(frames.drop_last()).time_entries,
            TimeEntry { frame_id: frame.frame_id, timestamp: frame.created_at },
        );
    }
}

proof fn lemma_superseding_one(
    frames: Seq<(u64, FrameView)>,
    inactive: Set<u64>,
    target: u64,
)
    ensures
        crate::split_memvid::active_of(frames, inactive.insert(target)) == without_id(
            crate::split_memvid::active_of(frames, inactive),
            target,
        ),
    decreases frames.len(),
{
    if frames.len() > 0 {
        let front = frames.drop_last();
        let frame = frames.last().1;
        let before = crate::split_memvid::active_of(front, inactive);
        lemma_superseding_one(front, inactive, target);
        if crate::split_memvid::is_live(frame, inactive) {
            assert(before.push(frame).drop_last() =~= before);
        }
    }
}

/// A plain frame that is put comes after all frames that are active, and changes
/// none of them. No earlier frame has named its ID as deleted or superseded.
pub proof fn putting_adds_one(
    store: StoreView,
    frames: Seq<(u64, FrameView)>,
    offset: u64,
    frame: FrameView,
)
    requires
        frame.frame_id == store.next_frame_id,
        frame.status == FrameStatus::Active,
        frame.supersedes is None,
        !store.inactive.contains(store.next_frame_id),
    ensures
        crate::split_memvid::active_of(
            frames.push((offset, frame)),
            store.appended(offset, frame).inactive,
        ) == crate::split_memvid::active_of(frames, store.inactive).push(frame),
{
    assert(frames.push((offset, frame)).drop_last() =~= frames);
}

/// Deleting a frame takes it out of the active frames and leaves the others as
/// they are.
pub proof fn deleting_removes_one(
    store: StoreView,
    frames: Seq<(u64, FrameView)>,
    offset: u64,
    target: u64,
    created_at: i64,
)
    ensures
        ({
            let tombstone = FrameView::tombstone(store.next_frame_id, target, created_at);
            let after = store.appended(offset, tombstone);
            &&& crate::split_memvid::active_of(frames.push((offset, tombstone)), after.inactive)
                == without_id(crate::split_memvid::active_of(frames, store.inactive), target)
            &&& after.inactive == store.inactive.insert(target)
        }),
{
    let tombstone = FrameView::tombstone(store.next_frame_id, target, created_at);
    assert(frames.push((offset, tombstone)).drop_last() =~= frames);
    lemma_superseding_one(frames, store.inactive, target);
}

/// Updating a frame puts the new version behind the active frames, in place of
/// the old one. The new version is not itself the old one, and no earlier frame
/// has named its ID as deleted or superseded.
pub proof fn updating_replaces_one(
    store: StoreView,
    frames: Seq<(u64, FrameView)>,
    offset: u64,
    target: u64,
    content: Seq<char>,
    created_at: i64,
)
    requires
        target != store.next_frame_id,
        !store.inactive.contains(store.next_frame_id),
    ensures
        ({
            let version = FrameView {
                supersedes: Some(target),
                ..FrameView::plain(store.next_frame_id, content, created_at)
            };
            let after = store.appended(offset, version);
            &&& crate::split_memvid::active_of(frames.push((offset, version)), after.inactive)
                == without_id(
                crate::split_memvid::active_of(frames, store.inactive),
                target,
            ).push(version)
            &&& after.inactive == store.inactive.insert(target)
        }),
{
    let version = FrameView {
        supersedes: Some(target),
        ..FrameView::plain(store.next_frame_id, content, created_at)
    };
    assert(frames.push((offset, version)).drop_last() =~= frames);
    lemma_superseding_one(frames, store.inactive, target);
}

/// Frames without those of one ID hold none of that ID, and all others.
pub proof fn without_id_is_exact(frames: Seq<FrameView>, id: u64, frame: FrameView)
    ensures
        without_id(frames, id).contains(frame) <==> frames.contains(frame) && frame.frame_id != id,
    decreases frames.len(),
{
    if frames.len() > 0 {
        let front = frames.drop_last();
        let kept = without_id(front, id);
        without_id_is_exact(front, id, frame);
        assert(frames =~= front.push(frames.last()));
        vstd::seq_lib::lemma_seq_contains_after_push(front, frames.last(), frame);
        vstd::seq_lib::lemma_seq_contains_after_push(kept, frames.last(), frame);
    }
}

/// A frame that is deleted or superseded is not found by time, and every other
/// frame still is.
pub proof fn inactive_frames_are_out_of_range(ids: Seq<u64>, inactive: Set<u64>, id: u64)
    ensures
        crate::split_memvid::ids_without(ids, inactive).contains(id) <==> ids.contains(id)
            && !inactive.contains(id),
    decreases ids.len(),
{
    if ids.len() > 0 {
        let front = ids.drop_last();
        let kept = crate::split_memvid::ids_without(front, inactive);
        inactive_frames_are_out_of_range(front, inactive, id);
        assert(ids =~= front.push(ids.last()));
        vstd::seq_lib::lemma_seq_contains_after_push(front, ids.last(), id);
        vstd::seq_lib::lemma_seq_contains_after_push(kept, ids.last(), id);
    }
}

proof fn lemma_counts(frames: Seq<(u64, FrameView)>, inactive: Set<u64>)
    ensures
        crate::split_memvid::inactive_of(frames).finite(),
        crate::split_memvid::inactive_of(frames).len() <= frames.len(),
        crate::split_memvid::active_of(frames, inactive).len() <= frames.len(),
    decreases frames.len(),
{
    if frames.len() > 0 {
        lemma_counts(frames.drop_last(), inactive);
    }
}

proof fn lemma_increasing_len(frames: Seq<(u64, FrameView)>)
    requires
        increasing(frames),
    ensures
        frames.len() <= crate::split_memvid::id_after(crate::split_memvid::last_id(frames)),
    decreases frames.len(),
{
    if frames.len() > 1 {
        let front = frames.drop_last();
        assert forall|i: int, j: int| 0 <= i < j < front.len() implies (
        #[trigger] front[i]).1.frame_id < (#[trigger] front[j]).1.frame_id by {
            assert(frames[i].1.frame_id < frames[j].1.frame_id);
        }
        lemma_increasing_len(front);
        assert(frames[frames.len() - 2].1.frame_id < frames[frames.len() - 1].1.frame_id);
    }
}

/// A store in step with its data file has no more inactive frames and no more
/// active frames than frames: the share of inactive ones lies between nothing and
/// all, and a compaction removes no more than there is.
pub proof fn counts_are_sound(store: StoreView, frames: Seq<(u64, FrameView)>)
    requires
        agrees(store, frames),
        increasing(frames),
    ensures
        store.inactive.finite(),
        store.inactive.len() <= store.next_frame_id,
        crate::split_memvid::active_of(frames, store.inactive).len() <= store.next_frame_id,
{
    lemma_counts(frames, store.inactive);
    lemma_increasing_len(frames);
}

proof fn lemma_active_is_live(frames: Seq<(u64, FrameView)>, inactive: Set<u64>, i: int)
    requires
        0 <= i < crate::split_memvid::active_of(frames, inactive).len(),
    ensures
        crate::split_memvid::is_live(
            crate::split_memvid::active_of(frames, inactive)[i],
            inactive,
        ),
        exists|k: int|
            0 <= k < frames.len() && (#[trigger] frames[k]).1 == crate::split_memvid::active_of(
                frames,
                inactive,
            )[i],
    decreases frames.len(),
{
    let front = frames.drop_last();
    let before = crate::split_memvid::active_of(front, inactive);
    if i < before.len() {
        lemma_active_is_live(front, inactive, i);
        let k = choose|k: int| 0 <= k < front.len() && (#[trigger] front[k]).1 == before[i];
        assert(frames[k] == front[k]);
    } else {
        assert(frames[frames.len() - 1] == frames.last());
    }
}

proof fn lemma_nothing_superseded(frames: Seq<(u64, FrameView)>)
    requires
        forall|k: int|
            0 <= k < frames.len() ==> (#[trigger] frames[k]).1.supersedes is None
                && frames[k].1.status == FrameStatus::Active,
    ensures
        crate::split_memvid::inactive_of(frames) == Set::<u64>::empty(),
        crate::split_memvid::active_of(frames, Set::empty()) == frames.map_values(
            |p: (u64, FrameView)| p.1,
        ),
    decreases frames.len(),
{
    let views = frames.map_values(|p: (u64, FrameView)| p.1);
    if frames.len() > 0 {
        let front = frames.drop_last();
        assert forall|k: int| 0 <= k < front.len() implies (#[trigger] front[k]).1.supersedes is None
            && front[k].1.status == FrameStatus::Active by {
            assert(frames[k] == front[k]);
        }
        lemma_nothing_superseded(front);
        assert(frames[frames.len() - 1] == frames.last());
        assert(front.map_values(|p: (u64, FrameView)| p.1).push(frames.last().1) =~= views);
    } else {
        assert(views =~= Seq::empty());
    }
}

/// Compacting keeps exactly the active frames, in order and with all that they
/// say but their IDs. They are numbered from zero, none is inactive, and the
/// store is in step with the compacted file, which another compaction would not
/// change.
pub proof fn compacting_keeps_the_active_frames(
    store: StoreView,
    frames: Seq<(u64, FrameView)>,
    compacted: Seq<(u64, FrameView)>,
)
    requires
        agrees(store, frames),
        increasing(frames),
        compacted.map_values(|p: (u64, FrameView)| p.1) == crate::split_memvid::compacted_frames(
            crate::split_memvid::active_of(frames, store.inactive),
        ),
    ensures
        ({
            let active = crate::split_memvid::active_of(frames, store.inactive);
            let after = StoreView {
                next_frame_id: active.len() as u64,
                ..store.rebuilt(compacted)
            };
            let kept = crate::split_memvid::active_of(compacted, after.inactive);
            &&& agrees(after, compacted)
            &&& increasing(compacted)
            &&& after.inactive == Set::<u64>::empty()
            &&& after.next_frame_id == active.len()
            &&& kept.len() == active.len()
            &&& crate::split_memvid::compacted_frames(kept) == kept
            &&& forall|i: int|
                0 <= i < active.len() ==> (#[trigger] kept[i]) == (FrameView {
                    frame_id: i as u64,
                    supersedes: None,
                    ..active[i]
                })
        }),
{
    let active = crate::split_memvid::active_of(frames, store.inactive);
    let views = compacted.map_values(|p: (u64, FrameView)| p.1);
    counts_are_sound(store, frames);
    assert(views.len() == crate::split_memvid::compacted_frames(active).len());
    assert(compacted.len() == active.len());
    assert forall|k: int| 0 <= k < compacted.len() implies (#[trigger] compacted[k]).1
        == crate::split_memvid::renumbered(active[k], k) && compacted[k].1.status
        == FrameStatus::Active by {
        assert(views[k] == compacted[k].1);
        lemma_active_is_live(frames, store.inactive, k);
    }
    lemma_nothing_superseded(compacted);
    if compacted.len() > 0 {
        assert(compacted[compacted.len() - 1] == compacted.last());
    }
    assert(crate::split_memvid::compacted_frames(views) =~= views);
}

/// A frame that was put can be got: its offset is known, and the line that starts
/// there is the one that was written, whatever is appended later.
pub proof fn put_frame_is_got(
    store: StoreView,
    frames: Seq<(u64, FrameView)>,
    data: Seq<u8>,
    frame: FrameView,
    text: Seq<char>,
    later: Seq<u8>,
)
    requires
        agrees(store, frames),
        increasing(frames),
        store.next_frame_id < u64::MAX,
        frame.frame_id == store.next_frame_id,
        data.len() <= u64::MAX,
        crate::data_file::is_frame_text(text),
    ensures
        crate::mv2x::offset_in(
            store.appended(data.len() as u64, frame).index.offsets,
            frame.frame_id,
        ) == Some(data.len() as u64),
        crate::data_file::frame_text_at(
            (data + vstd::utf8::encode_utf8(text).push(10) + later).skip(data.len() as int),
            data.len() as u64,
        ) == Ok::<_, DataError>(Some(text)),
{
    let offset = data.len() as u64;
    let all = frames.push((offset, frame));
    appending_keeps_step(store, frames, offset, frame);
    stored_frames_are_found(store.appended(offset, frame), all, frame.frame_id);
    assert(all[frames.len() as int].1.frame_id == frame.frame_id);
    crate::data_file::appended_frame_is_found(data, text, later, offset);
}

/// A frame that was put is still found at its offset after another was put.
pub proof fn putting_moves_no_other(
    store: StoreView,
    frame: FrameView,
    offset: u64,
    other: u64,
)
    requires
        crate::mv2x::offset_in(store.index.offsets, other) is Some,
    ensures
        crate::mv2x::offset_in(store.appended(offset, frame).index.offsets, other)
            == crate::mv2x::offset_in(store.index.offsets, other),
{
    lemma_offset_kept(
        store.index.offsets,
        FrameOffset { frame_id: frame.frame_id, byte_offset: offset },
        other,
    );
}

proof fn lemma_document_is_frame(frames: Seq<FrameView>, k: int)
    requires
        0 <= k < crate::mv2x::documents_for(frames).len(),
    ensures
        exists|i: int|
            0 <= i < frames.len() && crate::mv2x::documents_for(frames)[k]
                == crate::mv2x::document_of(#[trigger] frames[i]),
    decreases frames.len(),
{
    let front = frames.drop_last();
    let before = crate::mv2x::documents_for(front);
    if k < before.len() {
        lemma_document_is_frame(front, k);
        let i = choose|i: int|
            0 <= i < front.len() && before[k] == crate::mv2x::document_of(#[trigger] front[i]);
        assert(frames[i] == front[i]);
    } else {
        assert(frames[frames.len() - 1] == frames.last());
    }
}

/// A full-text search over the active frames finds active frames only.
pub proof fn search_finds_active_frames(
    frames: Seq<(u64, FrameView)>,
    inactive: Set<u64>,
    query: Seq<char>,
    limit: nat,
    i: int,
)
    requires
        0 <= i < crate::lex::search_result(
            crate::mv2x::documents_for(crate::split_memvid::active_of(frames, inactive)),
            query,
            limit,
        ).len(),
    ensures
        exists|k: int|
            0 <= k < frames.len() && crate::split_memvid::is_live(
                (#[trigger] frames[k]).1,
                inactive,
            ) && frames[k].1.frame_id == crate::lex::search_result(
                crate::mv2x::documents_for(crate::split_memvid::active_of(frames, inactive)),
                query,
                limit,
            )[i].frame_id,
{
    let active = crate::split_memvid::active_of(frames, inactive);
    let docs = crate::mv2x::documents_for(active);
    let hit = crate::lex::search_result(docs, query, limit)[i];
    crate::lex::hits_are_documents(docs, query, limit, i);
    let d = choose|d: int|
        0 <= d < docs.len() && hit == crate::lex::hit_of(
            #[trigger] docs[d],
            crate::lex::words_of(query),
        );
    lemma_document_is_frame(active, d);
    let j = choose|j: int|
        0 <= j < active.len() && docs[d] == crate::mv2x::document_of(#[trigger] active[j]);
    lemma_active_is_live(frames, inactive, j);
    let k = choose|k: int| 0 <= k < frames.len() && (#[trigger] frames[k]).1 == active[j];
    assert(crate::split_memvid::is_live(frames[k].1, inactive));
}

/// A frame is inactive exactly when a frame of the data file names it as deleted
/// or superseded.
pub proof fn inactive_frames_are_named(frames: Seq<(u64, FrameView)>, id: u64)
    ensures
        crate::split_memvid::inactive_of(frames).contains(id) <==> exists|k: int|
            0 <= k < frames.len() && (#[trigger] frames[k]).1.supersedes == Some(id),
    decreases frames.len(),
{
    if frames.len() > 0 {
        let front = frames.drop_last();
        inactive_frames_are_named(front, id);
        if crate::split_memvid::inactive_of(front).contains(id) {
            let k = choose|k: int|
                0 <= k < front.len() && (#[trigger] front[k]).1.supersedes == Some(id);
            assert(frames[k] == front[k]);
        } else if crate::split_memvid::inactive_of(frames).contains(id) {
            assert(frames[frames.len() - 1].1.supersedes == Some(id));
        }
        if exists|k: int|
            0 <= k < frames.len() && (#[trigger] frames[k]).1.supersedes == Some(id) {
            let k = choose|k: int|
                0 <= k < frames.len() && (#[trigger] frames[k]).1.supersedes == Some(id);
            if k < front.len() {
                assert(front[k] == frames[k]);
            }
        }
    }
}

/// Every rebuild and every catch-up of the index starts a new generation, as long
/// as there is a higher number.
pub proof fn generations_advance(store: StoreView, frames: Seq<(u64, FrameView)>)
    requires
        store.index.header.generation < u64::MAX,
    ensures
        store.rebuilt(frames).index.header.generation == store.index.header.generation + 1,
        store.reconciled(frames).index.header.generation == store.index.header.generation + 1,
{
}

/// Whether an index file is missing, cannot be read, or was written while the data
/// file held its first `n` frames.
pub open spec fn index_file_of_prefix(
    index_file: Option<Seq<u8>>,
    frames: Seq<(u64, FrameView)>,
    n: int,
) -> bool {
    match index_file {
        None => true,
        Some(bytes) => match crate::mv2x_file::parsed(bytes) {
            Err(_) => true,
            Ok(file) => 0 <= n <= frames.len() && same_entries(
                (FrameIndex {
                    header: file.header,
                    offsets: file.offsets,
                    time_entries: file.time_entries,
                }),
                crate::split_memvid::built(frames.take(n)),
            ),
        },
    }
}

/// Whether `frame` is active and no frame of the data file deletes or supersedes
/// it.
pub open spec fn is_current(frames: Seq<(u64, FrameView)>, frame: FrameView) -> bool {
    &&& frame.status == FrameStatus::Active
    &&& !exists|k: int|
        0 <= k < frames.len() && (#[trigger] frames[k]).1.supersedes == Some(frame.frame_id)
}

/// The active frames are those of the data file that are active and that no frame
/// deletes or supersedes.
pub proof fn active_frames_are_exact(frames: Seq<(u64, FrameView)>, frame: FrameView)
    ensures
        crate::split_memvid::active_of(
            frames,
            crate::split_memvid::inactive_of(frames),
        ).contains(frame) <==> is_current(frames, frame) && exists|k: int|
            0 <= k < frames.len() && (#[trigger] frames[k]).1 == frame,
{
    let inactive = crate::split_memvid::inactive_of(frames);
    let active = crate::split_memvid::active_of(frames, inactive);
    inactive_frames_are_named(frames, frame.frame_id);
    if active.contains(frame) {
        let i = choose|i: int| 0 <= i < active.len() && active[i] == frame;
        lemma_active_is_live(frames, inactive, i);
    }
    if is_current(frames, frame) && exists|k: int|
        0 <= k < frames.len() && (#[trigger] frames[k]).1 == frame {
        let k = choose|k: int| 0 <= k < frames.len() && (#[trigger] frames[k]).1 == frame;
        lemma_live_is_active(frames, inactive, k);
    }
}

proof fn lemma_live_is_active(frames: Seq<(u64, FrameView)>, inactive: Set<u64>, k: int)
    requires
        0 <= k < frames.len(),
        crate::split_memvid::is_live(frames[k].1, inactive),
    ensures
        crate::split_memvid::active_of(frames, inactive).contains(frames[k].1),
    decreases frames.len(),
{
    let front = frames.drop_last();
    let before = crate::split_memvid::active_of(front, inactive);
    let active = crate::split_memvid::active_of(frames, inactive);
    if k < front.len() {
        assert(front[k] == frames[k]);
        lemma_live_is_active(front, inactive, k);
        let i = choose|i: int| 0 <= i < before.len() && before[i] == frames[k].1;
        assert(active[i] == frames[k].1);
    } else {
        assert(active[active.len() - 1] == frames[k].1);
    }
}

/// A store whose data file was written from frames numbered from zero counts them
/// all, gets every one of them, and has those active that are not deleted or
/// superseded, whether its index file is missing, cannot be read, or was written
/// while the data file held fewer frames.
pub proof fn opened_store_holds_every_frame(
    index_file: Option<Seq<u8>>,
    frames: Seq<(u64, FrameView)>,
    texts: Seq<Seq<char>>,
    n: int,
)
    requires
        index_file_of_prefix(index_file, frames, n),
        forall|k: int|
            0 <= k < frames.len() ==> (#[trigger] frames[k]).1.frame_id == k && frames[k].0
                == crate::data_file::with_offsets(texts)[k].0,
        texts.len() == frames.len(),
        forall|k: int|
            0 <= k < texts.len() ==> crate::data_file::is_frame_text(#[trigger] texts[k]),
        crate::data_file::written(texts).len() <= u64::MAX,
        frames.len() <= u64::MAX,
    ensures
        ({
            let store = StoreView::opened(
                crate::split_memvid::last_id(frames),
                crate::split_memvid::loaded_index(index_file, frames),
                frames,
            );
            let data = crate::data_file::written(texts);
            &&& Situation { store, frames, data }.valid()
            &&& Situation { store, frames, data }.offsets_inside()
            &&& store.next_frame_id == frames.len()
            &&& forall|k: int|
                0 <= k < frames.len() ==> crate::mv2x::offset_in(
                    store.index.offsets,
                    (#[trigger] frames[k]).1.frame_id,
                ) == Some(frames[k].0) && crate::data_file::frame_text_at(
                    data.skip(frames[k].0 as int),
                    frames[k].0,
                ) == Ok::<_, DataError>(Some(texts[k]))
            &&& forall|frame: FrameView|
                (#[trigger] crate::split_memvid::active_of(frames, store.inactive).contains(frame))
                    <==> is_current(frames, frame) && exists|k: int|
                    0 <= k < frames.len() && (#[trigger] frames[k]).1 == frame
        }),
{
    let index = crate::split_memvid::loaded_index(index_file, frames);
    let store = StoreView::opened(crate::split_memvid::last_id(frames), index, frames);
    let data = crate::data_file::written(texts);
    assert(increasing(frames));
    if frames.len() > 0 {
        assert(frames[frames.len() - 1].1.frame_id == frames.len() - 1);
    }
    if index_file is Some && crate::mv2x_file::parsed(index_file->0) is Ok {
        reopening_catches_up(index, frames, n);
    } else {
        reopening_without_index_rebuilds(index_file, frames);
    }
    crate::data_file::written_frames_are_read(texts);
    assert forall|k: int| 0 <= k < frames.len() implies (#[trigger] frames[k]).0
        < data.len() by {
        crate::data_file::written_frame_is_found(texts, k);
    }
    assert forall|k: int| 0 <= k < frames.len() implies crate::mv2x::offset_in(
        store.index.offsets,
        (#[trigger] frames[k]).1.frame_id,
    ) == Some(frames[k].0) && crate::data_file::frame_text_at(
        data.skip(frames[k].0 as int),
        frames[k].0,
    ) == Ok::<_, DataError>(Some(texts[k])) by {
        stored_frames_are_found(store, frames, frames[k].1.frame_id);
        crate::data_file::written_frame_is_found(texts, k);
    }
    assert forall|frame: FrameView|
        (#[trigger] crate::split_memvid::active_of(frames, store.inactive).contains(frame))
            <==> is_current(frames, frame) && exists|k: int|
            0 <= k < frames.len() && (#[trigger] frames[k]).1 == frame by {
        active_frames_are_exact(frames, frame);
    }
}

/// What is done to a store and its data file.
pub enum Step {
    /// A frame is appended: put, put with metadata, updated or deleted.
    Append { frame: FrameView, text: Seq<char> },
    /// The index is rebuilt.
    Rebuild,
    /// The index is reconciled.
    Reconcile,
    /// A frame is got, or the index file is written.
    Keep,
}

/// A store, the frames of its data file, and the bytes of that file.
pub struct Situation {
    pub store: StoreView,
    pub frames: Seq<(u64, FrameView)>,
    pub data: Seq<u8>,
}

impl Situation {
    /// Whether the store is in step with its data file.
    pub open spec fn valid(self) -> bool {
        &&& agrees(self.store, self.frames)
        &&& increasing(self.frames)
        &&& crate::data_file::ends_with_line(self.data)
        &&& self.data.len() <= u64::MAX
    }

    /// Whether a step can be done.
    pub open spec fn allows(self, step: Step) -> bool {
        match step {
            Step::Append { frame, text } => {
                &&& self.store.next_frame_id < u64::MAX
                &&& frame.frame_id == self.store.next_frame_id
                &&& self.data.len() + vstd::utf8::encode_utf8(text).len() + 1 <= u64::MAX
            },
            _ => true,
        }
    }

    /// The situation after a step.
    pub open spec fn after(self, step: Step) -> Situation {
        match step {
            Step::Append { frame, text } => Situation {
                store: self.store.appended(self.data.len() as u64, frame),
                frames: self.frames.push((self.data.len() as u64, frame)),
                data: self.data + vstd::utf8::encode_utf8(text).push(10),
            },
            Step::Rebuild => Situation { store: self.store.rebuilt(self.frames), ..self },
            Step::Reconcile => Situation { store: self.store.reconciled(self.frames), ..self },
            Step::Keep => self,
        }
    }

    /// The situation after several steps.
    pub open spec fn after_all(self, steps: Seq<Step>) -> Situation
        decreases steps.len(),
    {
        if steps.len() == 0 {
            self
        } else {
            self.after_all(steps.drop_last()).after(steps.last())
        }
    }

    /// Whether several steps can be done one after the other.
    pub open spec fn allows_all(self, steps: Seq<Step>) -> bool
        decreases steps.len(),
    {
        steps.len() == 0 || (self.allows_all(steps.drop_last()) && self.after_all(
            steps.drop_last(),
        ).allows(steps.last()))
    }

    /// What getting a frame reads: nothing if its offset is not known, else the
    /// line at that offset.
    pub open spec fn got(self, frame_id: u64) -> Result<Option<Seq<char>>, DataError> {
        match crate::mv2x::offset_in(self.store.index.offsets, frame_id) {
            Some(offset) => crate::data_file::frame_text_at(
                self.data.skip(offset as int),
                offset,
            ),
            None => Ok(None),
        }
    }

    /// Whether every known offset lies in the data file.
    pub open spec fn offsets_inside(self) -> bool {
        forall|k: int| 0 <= k < self.frames.len() ==> (#[trigger] self.frames[k]).0
            < self.data.len()
    }
}

/// Writing the index file changes nothing that a store knows of its data file.
pub proof fn flushing_changes_nothing<M>(store: SplitMemvid<M>, saved: Option<Vec<u8>>)
    ensures
        (SplitMemvid {
            index: Mv2xIndex {
                mesh_bytes: store.index.mesh_bytes_with(saved),
                ..store.index
            },
            ..store
        })@ == store@,
{
}

proof fn lemma_step_keeps(before: Situation, step: Step, frame_id: u64)
    requires
        before.valid(),
        before.offsets_inside(),
        before.allows(step),
    ensures
        before.after(step).valid(),
        before.after(step).offsets_inside(),
        before.store.next_frame_id <= before.after(step).store.next_frame_id,
        crate::mv2x::offset_in(before.store.index.offsets, frame_id) is Some
            ==> crate::mv2x::offset_in(before.after(step).store.index.offsets, frame_id)
            == crate::mv2x::offset_in(before.store.index.offsets, frame_id)
            && before.after(step).got(frame_id) == before.got(frame_id),
{
    let next = before.after(step);
    lemma_built(before.frames);
    match step {
        Step::Append { frame, text } => {
            let offset = before.data.len() as u64;
            let line = vstd::utf8::encode_utf8(text).push(10);
            appending_keeps_step(before.store, before.frames, offset, frame);
            assert(next.data.last() == line.last());
            assert forall|k: int| 0 <= k < next.frames.len() implies (#[trigger] next.frames[k]).0
                < next.data.len() by {
                if k < before.frames.len() {
                    assert(before.frames[k] == next.frames[k]);
                }
            }
            if let Some(at) = crate::mv2x::offset_in(before.store.index.offsets, frame_id) {
                putting_moves_no_other(before.store, frame, offset, frame_id);
                stored_frames_are_found(before.store, before.frames, frame_id);
                let k = choose|k: int|
                    0 <= k < before.frames.len() && (#[trigger] before.frames[k]).1.frame_id
                        == frame_id;
                assert(before.frames[k].0 == at);
                crate::data_file::appending_changes_no_line(before.data, line, at);
            }
        },
        _ => {},
    }
}

/// A frame that can be got is got unchanged after any number of frames were
/// appended, deletions and new versions of it among them, and after the index was
/// written, rebuilt and reconciled any number of times. An ID from the number of
/// frames on is not found.
pub proof fn got_frames_stay(start: Situation, steps: Seq<Step>, frame_id: u64, later: u64)
    requires
        start.valid(),
        start.offsets_inside(),
        start.allows_all(steps),
        crate::mv2x::offset_in(start.store.index.offsets, frame_id) is Some,
        start.after_all(steps).store.next_frame_id <= later,
    ensures
        start.after_all(steps).valid(),
        start.after_all(steps).offsets_inside(),
        start.after_all(steps).got(frame_id) == start.got(frame_id),
        crate::mv2x::offset_in(start.after_all(steps).store.index.offsets, later) is None,
        start.after_all(steps).got(later) == Ok::<_, DataError>(None::<Seq<char>>),
{
    lemma_steps_keep(start, steps, frame_id);
    let end = start.after_all(steps);
    lemma_later_missing(end.store, end.frames, later);
}

proof fn lemma_steps_keep(start: Situation, steps: Seq<Step>, frame_id: u64)
    requires
        start.valid(),
        start.offsets_inside(),
        start.allows_all(steps),
        crate::mv2x::offset_in(start.store.index.offsets, frame_id) is Some,
    ensures
        start.after_all(steps).valid(),
        start.after_all(steps).offsets_inside(),
        crate::mv2x::offset_in(start.after_all(steps).store.index.offsets, frame_id) is Some,
        start.after_all(steps).got(frame_id) == start.got(frame_id),
    decreases steps.len(),
{
    if steps.len() > 0 {
        let front = steps.drop_last();
        lemma_steps_keep(start, front, frame_id);
        lemma_step_keeps(start.after_all(front), steps.last(), frame_id);
    }
}

proof fn lemma_later_missing(store: StoreView, frames: Seq<(u64, FrameView)>, later: u64)
    requires
        agrees(store, frames),
        increasing(frames),
        store.next_frame_id <= later,
    ensures
        crate::mv2x::offset_in(store.index.offsets, later) is None,
{
    stored_frames_are_found(store, frames, later);
    assert forall|k: int| 0 <= k < frames.len() implies (#[trigger] frames[k]).1.frame_id
        != later by {
        assert(frames[k].1.frame_id <= frames[frames.len() - 1].1.frame_id);
    }
}

} // verus!
