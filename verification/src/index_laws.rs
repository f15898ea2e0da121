//! What an index and a store hold of the frames of a data file, said of the frames
//! themselves.
//!
//! Nothing here runs.

use crate::frame_jsonl::{FrameJsonl, FrameStatus, FrameView};
use crate::mv2x::{FrameOffset, Mv2xIndex, TimeEntry};
use crate::split_memvid::SplitMemvid;
use crate::wire::DocumentView;
use vstd::prelude::*;

verus! {

/// Whether two optional texts are the same.
pub open spec fn same_text(a: Option<String>, b: Option<String>) -> bool {
    match (a, b) {
        (Some(x), Some(y)) => x@ == y@,
        (None, None) => true,
        _ => false,
    }
}

/// Whether two lists of tags are the same.
pub open spec fn same_tags(a: Seq<(String, String)>, b: Seq<(String, String)>) -> bool {
    &&& a.len() == b.len()
    &&& forall|i: int|
        0 <= i < a.len() ==> (#[trigger] a[i]).0@ == b[i].0@ && a[i].1@ == b[i].1@
}

/// Whether two frames are the same but for their ID and what they supersede.
pub open spec fn same_message(a: FrameJsonl, b: FrameJsonl) -> bool {
    &&& same_text(a.uri, b.uri)
    &&& same_text(a.title, b.title)
    &&& a.created_at == b.created_at
    &&& a.status == b.status
    &&& same_tags(a.tags.entries@, b.tags.entries@)
    &&& a.content@ == b.content@
}

/// Whether two frames are the same.
pub open spec fn same_frame(a: FrameJsonl, b: FrameJsonl) -> bool {
    &&& a.frame_id == b.frame_id
    &&& a.supersedes == b.supersedes
    &&& same_message(a, b)
}

/// Whether a frame is a new one that holds its content and nothing else.
pub open spec fn is_plain(frame: FrameJsonl, frame_id: u64, content: Seq<char>) -> bool {
    &&& frame.frame_id == frame_id
    &&& frame.uri is None
    &&& frame.title is None
    &&& frame.status == FrameStatus::Active
    &&& frame.supersedes is None
    &&& frame.tags.entries@.len() == 0
    &&& frame.content@ == content
}

/// Whether a frame marks `target` as deleted and does nothing else.
pub open spec fn is_tombstone(frame: FrameJsonl, frame_id: u64, target: u64) -> bool {
    &&& frame.frame_id == frame_id
    &&& frame.uri is None
    &&& frame.title is None
    &&& frame.status == FrameStatus::Tombstoned
    &&& frame.supersedes == Some(target)
    &&& frame.tags.entries@.len() == 0
    &&& frame.content@.len() == 0
}

/// The ID, the offset and the time of each frame of a data file.
pub open spec fn rows(all: Seq<(u64, FrameJsonl)>) -> Seq<(u64, u64, i64)> {
    Seq::new(all.len(), |k: int| (all[k].1.frame_id, all[k].0, all[k].1.created_at))
}

/// Whether `entries` are the frames in the order of their times and, of one time,
/// in the order of the file. `from` are the places of the frames in the file.
pub open spec fn sorted_from(
    from: Seq<int>,
    entries: Seq<TimeEntry>,
    rows: Seq<(u64, u64, i64)>,
) -> bool {
    &&& from.len() == rows.len()
    &&& entries.len() == rows.len()
    &&& forall|i: int|
        0 <= i < from.len() ==> 0 <= #[trigger] from[i] < rows.len() && entries[i].frame_id
            == rows[from[i]].0 && entries[i].timestamp == rows[from[i]].2
    &&& forall|i: int, j: int|
        0 <= i < j < from.len() ==> rows[#[trigger] from[i]].2 < rows[#[trigger] from[j]].2 || (
        rows[from[i]].2 == rows[from[j]].2 && from[i] < from[j])
    &&& forall|k: int| 0 <= k < rows.len() ==> from.contains(k)
}

/// Whether an index has an offset and a time for every frame of a data file and
/// for nothing else.
pub open spec fn indexes<M>(index: Mv2xIndex<M>, rows: Seq<(u64, u64, i64)>) -> bool {
    &&& index.offsets@.len() == rows.len()
    &&& forall|k: int|
        0 <= k < rows.len() ==> (#[trigger] index.offsets@[k]).frame_id == rows[k].0
            && index.offsets@[k].byte_offset == rows[k].1
    &&& exists|from: Seq<int>| #[trigger] sorted_from(from, index.time_entries@, rows)
    &&& index.header.frame_count == rows.len()
    &&& index.header.last_indexed_frame_id == if rows.len() == 0 {
        None
    } else {
        Some(rows.last().0)
    }
}

/// Whether `inactive` are exactly the frames that some frame deletes or
/// supersedes.
pub open spec fn names(inactive: Set<u64>, all: Seq<(u64, FrameJsonl)>) -> bool {
    forall|id: u64| #[trigger]
        inactive.contains(id) <==> exists|k: int|
            0 <= k < all.len() && (#[trigger] all[k]).1.supersedes == Some(id)
}

/// Whether the `k`th frame is active and not among `inactive`.
pub open spec fn live_at(all: Seq<(u64, FrameJsonl)>, inactive: Set<u64>, k: int) -> bool {
    all[k].1.status == FrameStatus::Active && !inactive.contains(all[k].1.frame_id)
}

/// Whether `ks` are the places of the frames that are active and not among
/// `inactive`.
pub open spec fn live_places(
    ks: Seq<int>,
    all: Seq<(u64, FrameJsonl)>,
    inactive: Set<u64>,
) -> bool {
    crate::select::places(ks, all.len() as int, |k: int| live_at(all, inactive, k))
}

/// Whether `frames` are the frames of the file that are active and not among
/// `inactive`, all of them, unchanged and in order.
pub open spec fn lists_live(
    frames: Seq<FrameJsonl>,
    all: Seq<(u64, FrameJsonl)>,
    inactive: Set<u64>,
) -> bool {
    exists|ks: Seq<int>| #[trigger]
        live_places(ks, all, inactive) && frames.len() == ks.len() && forall|j: int|
            0 <= j < ks.len() ==> same_frame(frames[j], all[#[trigger] ks[j]].1)
}

/// Whether `frames` are the live frames of the file, numbered from zero and with
/// nothing superseded, else unchanged.
pub open spec fn lists_compacted(
    frames: Seq<FrameJsonl>,
    all: Seq<(u64, FrameJsonl)>,
    inactive: Set<u64>,
) -> bool {
    exists|ks: Seq<int>| #[trigger]
        live_places(ks, all, inactive) && frames.len() == ks.len() && forall|j: int|
            0 <= j < ks.len() ==> same_message(frames[j], all[#[trigger] ks[j]].1)
                && frames[j].frame_id == j && frames[j].supersedes is None
}

/// Whether a document of the full-text index has all of a frame.
pub open spec fn shows(document: DocumentView, frame: FrameJsonl) -> bool {
    &&& document.frame_id == frame.frame_id
    &&& document.uri == match frame.uri {
        Some(uri) => uri@,
        None => Seq::empty(),
    }
    &&& match (document.title, frame.title) {
        (Some(a), Some(b)) => a == b@,
        (None, None) => true,
        _ => false,
    }
    &&& document.content == frame.content@
    &&& document.tags.len() == frame.tags.entries@.len()
    &&& forall|i: int|
        0 <= i < document.tags.len() ==> (#[trigger] document.tags[i]).0
            == frame.tags.entries@[i].0@ && document.tags[i].1 == frame.tags.entries@[i].1@
}

/// Whether `ks` are the places of the frames that are no tombstones.
pub open spec fn active_places(ks: Seq<int>, frames: Seq<FrameJsonl>) -> bool {
    crate::select::places(
        ks,
        frames.len() as int,
        |k: int| frames[k].status == FrameStatus::Active,
    )
}

/// Whether there is a document for each frame that is no tombstone, in order, and
/// no other.
pub open spec fn shows_active(documents: Seq<DocumentView>, frames: Seq<FrameJsonl>) -> bool {
    exists|ks: Seq<int>| #[trigger]
        active_places(ks, frames) && documents.len() == ks.len() && forall|j: int|
            0 <= j < ks.len() ==> shows(documents[j], frames[#[trigger] ks[j]])
}

/// Whether there is a document for each live frame of the file, in order, and no
/// other.
pub open spec fn shows_live(
    documents: Seq<DocumentView>,
    all: Seq<(u64, FrameJsonl)>,
    inactive: Set<u64>,
) -> bool {
    exists|ks: Seq<int>| #[trigger]
        live_places(ks, all, inactive) && documents.len() == ks.len() && forall|j: int|
            0 <= j < ks.len() ==> shows(documents[j], all[#[trigger] ks[j]].1)
}

/// Whether `ks` are the places of the entries from `start` to `end` whose frames
/// are not among `inactive`.
pub open spec fn time_places(
    ks: Seq<int>,
    entries: Seq<TimeEntry>,
    inactive: Set<u64>,
    start: i64,
    end: i64,
) -> bool {
    crate::select::places(
        ks,
        entries.len() as int,
        |k: int|
            start <= entries[k].timestamp <= end && !inactive.contains(entries[k].frame_id),
    )
}

/// Whether `ids` are the frames of the entries from `start` to `end`, in the order
/// of the entries, without those among `inactive`.
pub open spec fn lists_range(
    ids: Seq<u64>,
    entries: Seq<TimeEntry>,
    inactive: Set<u64>,
    start: i64,
    end: i64,
) -> bool {
    exists|ks: Seq<int>| #[trigger]
        time_places(ks, entries, inactive, start, end) && ids.len() == ks.len() && forall|j: int|
            0 <= j < ks.len() ==> ids[j] == entries[#[trigger] ks[j]].frame_id
}

/// Whether `offset` is where the first entry of a frame says that it starts, or
/// nothing if it has no entry.
pub open spec fn first_offset(
    offset: Option<u64>,
    offsets: Seq<FrameOffset>,
    frame_id: u64,
) -> bool {
    match offset {
        Some(o) => exists|i: int|
            0 <= i < offsets.len() && (#[trigger] offsets[i]).frame_id == frame_id
                && offsets[i].byte_offset == o && forall|j: int|
                0 <= j < i ==> (#[trigger] offsets[j]).frame_id != frame_id,
        None => forall|i: int|
            0 <= i < offsets.len() ==> (#[trigger] offsets[i]).frame_id != frame_id,
    }
}

/// Looking up an offset finds the first entry of the frame.
pub proof fn lookup_finds_the_first(offsets: Seq<FrameOffset>, frame_id: u64)
    ensures
        first_offset(crate::mv2x::offset_in(offsets, frame_id), offsets, frame_id),
    decreases offsets.len(),
{
    if offsets.len() > 0 && offsets[0].frame_id != frame_id {
        let rest = offsets.drop_first();
        lookup_finds_the_first(rest, frame_id);
        match crate::mv2x::offset_in(rest, frame_id) {
            Some(o) => {
                let i = choose|i: int|
                    0 <= i < rest.len() && (#[trigger] rest[i]).frame_id == frame_id
                        && rest[i].byte_offset == o && forall|j: int|
                        0 <= j < i ==> (#[trigger] rest[j]).frame_id != frame_id;
                assert(offsets[i + 1] == rest[i]);
                assert forall|j: int| 0 <= j < i + 1 implies (#[trigger] offsets[j]).frame_id
                    != frame_id by {
                    if j > 0 {
                        assert(rest[j - 1] == offsets[j]);
                    }
                }
            },
            None => {
                assert forall|i: int| 0 <= i < offsets.len() implies (
                #[trigger] offsets[i]).frame_id != frame_id by {
                    if i > 0 {
                        assert(rest[i - 1] == offsets[i]);
                    }
                }
            },
        }
    } else if offsets.len() > 0 {
        assert(offsets[0].frame_id == frame_id);
    }
}

/// The rows of frames as characters.
pub open spec fn view_rows(frames: Seq<(u64, FrameView)>) -> Seq<(u64, u64, i64)> {
    Seq::new(frames.len(), |k: int| (frames[k].1.frame_id, frames[k].0, frames[k].1.created_at))
}

/// The place at which an entry is inserted.
pub proof fn insertion_is_behind_all_not_later(
    entries: Seq<TimeEntry>,
    entry: TimeEntry,
) -> (p: int)
    requires
        crate::mv2x::in_time_order(entries),
    ensures
        0 <= p <= entries.len(),
        crate::mv2x::insert_by_time(entries, entry) == entries.insert(p, entry),
        forall|i: int| 0 <= i < p ==> (#[trigger] entries[i]).timestamp <= entry.timestamp,
        forall|i: int|
            p <= i < entries.len() ==> (#[trigger] entries[i]).timestamp > entry.timestamp,
    decreases entries.len(),
{
    if entries.len() > 0 && entries.last().timestamp > entry.timestamp {
        let front = entries.drop_last();
        assert(crate::mv2x::in_time_order(front)) by {
            assert forall|i: int, j: int| 0 <= i < j < front.len() implies (
            #[trigger] front[i]).timestamp <= (#[trigger] front[j]).timestamp by {
                assert(entries[i].timestamp <= entries[j].timestamp);
            }
        }
        let p = insertion_is_behind_all_not_later(front, entry);
        assert(front.insert(p, entry).push(entries.last()) =~= entries.insert(p, entry));
        assert forall|i: int| 0 <= i < p implies (#[trigger] entries[i]).timestamp
            <= entry.timestamp by {
            assert(front[i] == entries[i]);
        }
        assert forall|i: int| p <= i < entries.len() implies (#[trigger] entries[i]).timestamp
            > entry.timestamp by {
            if i < front.len() {
                assert(front[i] == entries[i]);
            }
        }
        p
    } else {
        let p = entries.len() as int;
        assert(entries.insert(p, entry) =~= entries.push(entry));
        assert forall|i: int| 0 <= i < p implies (#[trigger] entries[i]).timestamp
            <= entry.timestamp by {
            assert(entries[i].timestamp <= entries[entries.len() - 1].timestamp);
        }
        p
    }
}

/// The time entries of the frames of a data file are all of them, each with its
/// own time, in the order of the times.
pub proof fn built_entries_are_the_frames(frames: Seq<(u64, FrameView)>) -> (from: Seq<int>)
    ensures
        sorted_from(from, crate::split_memvid::built(frames).time_entries, view_rows(frames)),
        crate::mv2x::in_time_order(crate::split_memvid::built(frames).time_entries),
    decreases frames.len(),
{
    let entries = crate::split_memvid::built(frames).time_entries;
    let all = view_rows(frames);
    if frames.len() == 0 {
        Seq::empty()
    } else {
        let front = frames.drop_last();
        let n = frames.len() - 1;
        let frame = frames.last().1;
        let before = crate::split_memvid::built(front).time_entries;
        let old = view_rows(front);
        let entry = TimeEntry { frame_id: frame.frame_id, timestamp: frame.created_at };
        let places = built_entries_are_the_frames(front);
        let p = insertion_is_behind_all_not_later(before, entry);
        let from = places.insert(p, n);
        assert(forall|k: int| 0 <= k < n ==> old[k] == #[trigger] all[k]);
        assert forall|i: int| 0 <= i < from.len() implies 0 <= #[trigger] from[i] < all.len()
            && entries[i].frame_id == all[from[i]].0 && entries[i].timestamp
            == all[from[i]].2 by {
            if i < p {
                assert(from[i] == places[i]);
                assert(entries[i] == before[i]);
            } else if i > p {
                assert(from[i] == places[i - 1]);
                assert(entries[i] == before[i - 1]);
            }
        }
        assert forall|i: int, j: int| 0 <= i < j < from.len() implies all[#[trigger] from[i]].2
            < all[#[trigger] from[j]].2 || (all[from[i]].2 == all[from[j]].2 && from[i]
            < from[j]) by {
            if i < p {
                assert(from[i] == places[i]);
                assert(before[i].timestamp == all[places[i]].2);
                if j < p {
                    assert(from[j] == places[j]);
                } else if j > p {
                    assert(from[j] == places[j - 1]);
                }
            } else {
                assert(from[j] == places[j - 1]);
                assert(before[j - 1].timestamp == all[places[j - 1]].2);
                if i > p {
                    assert(from[i] == places[i - 1]);
                }
            }
        }
        assert forall|k: int| 0 <= k < all.len() implies from.contains(k) by {
            if k < n {
                assert(places.contains(k));
                let i = choose|i: int| 0 <= i < places.len() && places[i] == k;
                if i < p {
                    assert(from[i] == k);
                } else {
                    assert(from[i + 1] == k);
                }
            } else {
                assert(from[p] == n);
            }
        }
        assert forall|i: int, j: int| 0 <= i < j < entries.len() implies (
        #[trigger] entries[i]).timestamp <= (#[trigger] entries[j]).timestamp by {
            assert(all[from[i]].2 <= all[from[j]].2);
        }
        from
    }
}

/// An index that is built from the frames of a data file has them all.
pub proof fn built_index_has_every_frame<M>(index: Mv2xIndex<M>, all: Seq<(u64, FrameJsonl)>)
    requires
        index.frame_index() == crate::split_memvid::built(crate::split_memvid::stored(all)),
        all.len() <= u64::MAX,
    ensures
        indexes(index, rows(all)),
        index.header.embedding_model is None,
        index.header.embedding_dim is None,
        index.header.generation == 0,
{
    let frames = crate::split_memvid::stored(all);
    crate::store_laws::lemma_built(frames);
    lemma_built_header(frames);
    let from = built_entries_are_the_frames(frames);
    assert(view_rows(frames) =~= rows(all));
    assert(sorted_from(from, index.time_entries@, rows(all)));
    assert forall|k: int| 0 <= k < rows(all).len() implies (
    #[trigger] index.offsets@[k]).frame_id == rows(all)[k].0 && index.offsets@[k].byte_offset
        == rows(all)[k].1 by {
        assert(crate::split_memvid::built(frames).offsets[k] == (FrameOffset {
            frame_id: frames[k].1.frame_id,
            byte_offset: frames[k].0,
        }));
    }
    assert(index.header@.embedding_model is None);
}

proof fn lemma_built_header(frames: Seq<(u64, FrameView)>)
    ensures
        crate::split_memvid::built(frames).header.embedding_model is None,
        crate::split_memvid::built(frames).header.embedding_dim is None,
        crate::split_memvid::built(frames).header.generation == 0,
    decreases frames.len(),
{
    if frames.len() > 0 {
        lemma_built_header(frames.drop_last());
    }
}

/// The frames that are deleted or superseded are those that some frame names.
pub proof fn inactive_frames_are_those_named(all: Seq<(u64, FrameJsonl)>)
    ensures
        names(crate::split_memvid::inactive_of(crate::split_memvid::stored(all)), all),
{
    let frames = crate::split_memvid::stored(all);
    assert forall|id: u64| #[trigger]
        crate::split_memvid::inactive_of(frames).contains(id) <==> exists|k: int|
            0 <= k < all.len() && (#[trigger] all[k]).1.supersedes == Some(id) by {
        crate::store_laws::inactive_frames_are_named(frames, id);
        if exists|k: int| 0 <= k < frames.len() && (#[trigger] frames[k]).1.supersedes == Some(id) {
            let k = choose|k: int|
                0 <= k < frames.len() && (#[trigger] frames[k]).1.supersedes == Some(id);
            assert(all[k].1.supersedes == Some(id));
        }
        if exists|k: int| 0 <= k < all.len() && (#[trigger] all[k]).1.supersedes == Some(id) {
            let k = choose|k: int|
                0 <= k < all.len() && (#[trigger] all[k]).1.supersedes == Some(id);
            assert(frames[k].1.supersedes == Some(id));
        }
    }
}

/// The frames found by time are those of the entries in the range that are not
/// deleted or superseded, all of them and in order.
pub proof fn range_lists_the_entries(
    entries: Seq<TimeEntry>,
    inactive: Set<u64>,
    start: i64,
    end: i64,
)
    ensures
        lists_range(
            crate::split_memvid::ids_without(
                crate::mv2x::ids_in_range(entries, start, end),
                inactive,
            ),
            entries,
            inactive,
            start,
            end,
        ),
{
    let ks = lemma_range_places(entries, inactive, start, end);
    assert(time_places(ks, entries, inactive, start, end));
}

proof fn lemma_range_places(
    entries: Seq<TimeEntry>,
    inactive: Set<u64>,
    start: i64,
    end: i64,
) -> (ks: Seq<int>)
    ensures
        time_places(ks, entries, inactive, start, end),
        ({
            let ids = crate::split_memvid::ids_without(
                crate::mv2x::ids_in_range(entries, start, end),
                inactive,
            );
            &&& ids.len() == ks.len()
            &&& forall|j: int|
                0 <= j < ks.len() ==> ids[j] == entries[#[trigger] ks[j]].frame_id
        }),
    decreases entries.len(),
{
    let keep = |k: int|
        start <= entries[k].timestamp <= end && !inactive.contains(entries[k].frame_id);
    if entries.len() == 0 {
        Seq::empty()
    } else {
        let front = entries.drop_last();
        let n = front.len() as int;
        let before = lemma_range_places(front, inactive, start, end);
        let front_keep = |k: int|
            start <= front[k].timestamp <= end && !inactive.contains(front[k].frame_id);
        assert(crate::select::places(before, n, front_keep));
        crate::select::lemma_places_agree(before, n, front_keep, keep);
        let ids = crate::mv2x::ids_in_range(front, start, end);
        let all_ids = crate::mv2x::ids_in_range(entries, start, end);
        if start <= entries.last().timestamp <= end {
            assert(all_ids.drop_last() =~= ids);
        }
        let ks = crate::select::lemma_places_grow(before, n, keep);
        assert forall|j: int| 0 <= j < ks.len() implies crate::split_memvid::ids_without(
            all_ids,
            inactive,
        )[j] == entries[#[trigger] ks[j]].frame_id by {
            if j < before.len() {
                assert(ks[j] == before[j]);
                assert(front[before[j]] == entries[ks[j]]);
            }
        }
        ks
    }
}

pub proof fn lemma_same_message(a: FrameJsonl, b: FrameJsonl, c: FrameJsonl)
    requires
        same_message(a, b),
        same_message(b, c),
    ensures
        same_message(a, c),
{
    assert forall|i: int| 0 <= i < a.tags.entries@.len() implies (
    #[trigger] a.tags.entries@[i]).0@ == c.tags.entries@[i].0@ && a.tags.entries@[i].1@
        == c.tags.entries@[i].1@ by {
        assert(b.tags.entries@[i].0@ == c.tags.entries@[i].0@);
    }
}

proof fn lemma_shows_same(document: DocumentView, a: FrameJsonl, b: FrameJsonl)
    requires
        shows(document, a),
        same_frame(a, b),
    ensures
        shows(document, b),
{
    assert forall|i: int| 0 <= i < document.tags.len() implies (#[trigger] document.tags[i]).0
        == b.tags.entries@[i].0@ && document.tags[i].1 == b.tags.entries@[i].1@ by {
        assert(a.tags.entries@[i].0@ == b.tags.entries@[i].0@);
    }
}

/// The documents of the live frames of a data file are one for each of them.
pub proof fn documents_of_live_frames(
    documents: Seq<DocumentView>,
    frames: Seq<FrameJsonl>,
    all: Seq<(u64, FrameJsonl)>,
    inactive: Set<u64>,
)
    requires
        shows_active(documents, frames),
        lists_live(frames, all, inactive),
    ensures
        shows_live(documents, all, inactive),
{
    let ks = choose|ks: Seq<int>| #[trigger]
        live_places(ks, all, inactive) && frames.len() == ks.len() && forall|j: int|
            0 <= j < ks.len() ==> same_frame(frames[j], all[#[trigger] ks[j]].1);
    let js = choose|js: Seq<int>| #[trigger]
        active_places(js, frames) && documents.len() == js.len() && forall|j: int|
            0 <= j < js.len() ==> shows(documents[j], frames[#[trigger] js[j]]);
    let live = |k: int| live_at(all, inactive, k);
    let active = |k: int| frames[k].status == FrameStatus::Active;
    assert(crate::select::places(ks, all.len() as int, live));
    assert forall|k: int| 0 <= k < frames.len() implies #[trigger] active(k) by {
        assert(live(ks[k]));
        assert(same_frame(frames[k], all[ks[k]].1));
    }
    let every = Seq::new(frames.len(), |i: int| i);
    assert(crate::select::places(every, frames.len() as int, active)) by {
        assert forall|k: int| 0 <= k < frames.len() && #[trigger] active(k) implies every.contains(
            k,
        ) by {
            assert(every[k] == k);
        }
    }
    crate::select::lemma_places_unique(js, every, frames.len() as int, active);
    assert forall|j: int| 0 <= j < ks.len() implies shows(documents[j], all[#[trigger] ks[j]].1) by {
        assert(js[j] == j);
        assert(shows(documents[j], frames[js[j]]));
        lemma_shows_same(documents[j], frames[j], all[ks[j]].1);
    }
}

/// Whether a store knows exactly the frames of a data file: their offsets and
/// times, and which of them are deleted or superseded.
pub open spec fn holds<M>(store: SplitMemvid<M>, all: Seq<(u64, FrameJsonl)>) -> bool {
    &&& indexes(store.index, rows(all))
    &&& names(store.inactive_frames@, all)
}

/// A store that knows the frames of its data file knows them with one more, once
/// that is entered behind all that are not later.
pub proof fn lemma_holds_one_more<M>(
    before: SplitMemvid<M>,
    after: SplitMemvid<M>,
    all: Seq<(u64, FrameJsonl)>,
    offset: u64,
    frame: FrameJsonl,
    p: int,
)
    requires
        holds(before, all),
        all.len() < u64::MAX,
        after.index.offsets@ == before.index.offsets@.push(
            FrameOffset { frame_id: frame.frame_id, byte_offset: offset },
        ),
        0 <= p <= before.index.time_entries@.len(),
        after.index.time_entries@ == before.index.time_entries@.insert(
            p,
            TimeEntry { frame_id: frame.frame_id, timestamp: frame.created_at },
        ),
        forall|i: int|
            p <= i < before.index.time_entries@.len() ==> (
            #[trigger] before.index.time_entries@[i]).timestamp > frame.created_at,
        p > 0 ==> before.index.time_entries@[p - 1].timestamp <= frame.created_at,
        after.index.header.frame_count == before.index.offsets@.len() + 1,
        after.index.header.last_indexed_frame_id == Some(frame.frame_id),
        after.inactive_frames@ == match frame.supersedes {
            Some(id) => before.inactive_frames@.insert(id),
            None => before.inactive_frames@,
        },
    ensures
        holds(after, all.push((offset, frame))),
{
    let more = all.push((offset, frame));
    let n = all.len() as int;
    let old = rows(all);
    let new = rows(more);
    let entries = after.index.time_entries@;
    let earlier = before.index.time_entries@;
    let places = choose|from: Seq<int>| #[trigger] sorted_from(from, earlier, old);
    let from = places.insert(p, n);
    assert(forall|k: int| 0 <= k < n ==> old[k] == #[trigger] new[k]);
    assert forall|i: int| 0 <= i < from.len() implies 0 <= #[trigger] from[i] < new.len()
        && entries[i].frame_id == new[from[i]].0 && entries[i].timestamp == new[from[i]].2 by {
        if i < p {
            assert(from[i] == places[i]);
            assert(entries[i] == earlier[i]);
        } else if i > p {
            assert(from[i] == places[i - 1]);
            assert(entries[i] == earlier[i - 1]);
        }
    }
    assert forall|i: int| 0 <= i < p implies old[#[trigger] places[i]].2 <= frame.created_at by {
        if i < p - 1 {
            assert(old[places[i]].2 <= old[places[p - 1]].2);
        }
        assert(earlier[p - 1].timestamp == old[places[p - 1]].2);
    }
    assert forall|i: int, j: int| 0 <= i < j < from.len() implies new[#[trigger] from[i]].2
        < new[#[trigger] from[j]].2 || (new[from[i]].2 == new[from[j]].2 && from[i] < from[j]) by {
        if i < p {
            assert(from[i] == places[i]);
            if j < p {
                assert(from[j] == places[j]);
            } else if j > p {
                assert(from[j] == places[j - 1]);
            }
        } else {
            assert(from[j] == places[j - 1]);
            assert(earlier[j - 1].timestamp == old[places[j - 1]].2);
            if i > p {
                assert(from[i] == places[i - 1]);
            }
        }
    }
    assert forall|k: int| 0 <= k < new.len() implies from.contains(k) by {
        if k < n {
            assert(places.contains(k));
            let i = choose|i: int| 0 <= i < places.len() && places[i] == k;
            if i < p {
                assert(from[i] == k);
            } else {
                assert(from[i + 1] == k);
            }
        } else {
            assert(from[p] == n);
        }
    }
    assert(sorted_from(from, entries, new));
    assert forall|k: int| 0 <= k < new.len() implies (
    #[trigger] after.index.offsets@[k]).frame_id == new[k].0 && after.index.offsets@[k].byte_offset
        == new[k].1 by {
        if k < n {
            assert(before.index.offsets@[k].frame_id == old[k].0);
        }
    }
    assert forall|id: u64| #[trigger]
        after.inactive_frames@.contains(id) <==> exists|k: int|
            0 <= k < more.len() && (#[trigger] more[k]).1.supersedes == Some(id) by {
        if before.inactive_frames@.contains(id) {
            let k = choose|k: int|
                0 <= k < all.len() && (#[trigger] all[k]).1.supersedes == Some(id);
            assert(more[k] == all[k]);
        }
        if frame.supersedes == Some(id) {
            assert(more[n].1.supersedes == Some(id));
        }
        if exists|k: int| 0 <= k < more.len() && (#[trigger] more[k]).1.supersedes == Some(id) {
            let k = choose|k: int|
                0 <= k < more.len() && (#[trigger] more[k]).1.supersedes == Some(id);
            if k < n {
                assert(all[k].1.supersedes == Some(id));
            }
        }
    }
}

/// Whether the `k`th frame of a data file was created from `start` to `end` and no
/// frame deletes or supersedes it.
pub open spec fn dated_within(
    all: Seq<(u64, FrameJsonl)>,
    k: int,
    start: i64,
    end: i64,
) -> bool {
    &&& start <= all[k].1.created_at <= end
    &&& forall|j: int|
        0 <= j < all.len() ==> (#[trigger] all[j]).1.supersedes != Some(all[k].1.frame_id)
}

/// Whether `ids` are the frames of a time range, where `ks` are their places in the
/// file, in the order of their times and, of one time, in the order of the file.
pub open spec fn dated_in_order(
    ks: Seq<int>,
    ids: Seq<u64>,
    all: Seq<(u64, FrameJsonl)>,
    start: i64,
    end: i64,
) -> bool {
    &&& ids.len() == ks.len()
    &&& forall|i: int|
        0 <= i < ks.len() ==> 0 <= #[trigger] ks[i] < all.len() && ids[i]
            == all[ks[i]].1.frame_id && dated_within(all, ks[i], start, end)
    &&& forall|i: int, j: int|
        0 <= i < j < ks.len() ==> all[#[trigger] ks[i]].1.created_at
            < all[#[trigger] ks[j]].1.created_at || (all[ks[i]].1.created_at
            == all[ks[j]].1.created_at && ks[i] < ks[j])
    &&& forall|k: int|
        0 <= k < all.len() && #[trigger] dated_within(all, k, start, end) ==> ks.contains(k)
}

/// The frames that a store finds by time are those of its data file whose own
/// time lies in the range and that no frame deletes or supersedes. They come in
/// the order of their times and, of one time, in the order of the file.
pub proof fn range_is_of_the_frames<M>(
    store: SplitMemvid<M>,
    all: Seq<(u64, FrameJsonl)>,
    start: i64,
    end: i64,
    r: Vec<u64>,
)
    requires
        holds(store, all),
        call_ensures(SplitMemvid::<M>::frames_in_range, (&store, start, end), r),
    ensures
        forall|id: u64| #[trigger]
            r@.contains(id) <==> exists|k: int|
                0 <= k < all.len() && all[k].1.frame_id == id && #[trigger] dated_within(
                    all,
                    k,
                    start,
                    end,
                ),
        exists|ks: Seq<int>| #[trigger] dated_in_order(ks, r@, all, start, end),
{
    let entries = store.index.time_entries@;
    let inactive = store.inactive_frames@;
    let table = rows(all);
    let from = choose|from: Seq<int>| #[trigger] sorted_from(from, entries, table);
    let at = choose|at: Seq<int>| #[trigger]
        time_places(at, entries, inactive, start, end) && r@.len() == at.len() && forall|j: int|
            0 <= j < at.len() ==> r@[j] == entries[#[trigger] at[j]].frame_id;
    let keep = |k: int|
        start <= entries[k].timestamp <= end && !inactive.contains(entries[k].frame_id);
    assert(crate::select::places(at, entries.len() as int, keep));
    let ks = Seq::new(at.len(), |i: int| from[at[i]]);
    assert forall|i: int| 0 <= i < from.len() implies (#[trigger] keep(i) <==> dated_within(
        all,
        from[i],
        start,
        end,
    )) by {
        let k = from[i];
        assert(entries[i].frame_id == table[k].0 && entries[i].timestamp == table[k].2);
        assert(table[k] == (all[k].1.frame_id, all[k].0, all[k].1.created_at));
        if inactive.contains(all[k].1.frame_id) {
            let j = choose|j: int|
                0 <= j < all.len() && (#[trigger] all[j]).1.supersedes == Some(all[k].1.frame_id);
            assert(!dated_within(all, k, start, end));
        }
    }
    assert forall|i: int| 0 <= i < ks.len() implies 0 <= #[trigger] ks[i] < all.len() && r@[i]
        == all[ks[i]].1.frame_id && dated_within(all, ks[i], start, end) by {
        assert(keep(at[i]));
        assert(ks[i] == from[at[i]]);
        assert(entries[at[i]].frame_id == table[from[at[i]]].0);
    }
    assert forall|i: int, j: int| 0 <= i < j < ks.len() implies all[#[trigger] ks[i]].1.created_at
        < all[#[trigger] ks[j]].1.created_at || (all[ks[i]].1.created_at
        == all[ks[j]].1.created_at && ks[i] < ks[j]) by {
        assert(at[i] < at[j]);
        assert(ks[i] == from[at[i]] && ks[j] == from[at[j]]);
        assert(table[from[at[i]]].2 == all[ks[i]].1.created_at);
        assert(table[from[at[j]]].2 == all[ks[j]].1.created_at);
    }
    assert forall|k: int|
        0 <= k < all.len() && #[trigger] dated_within(all, k, start, end) implies ks.contains(
        k,
    ) by {
        assert(from.contains(k));
        let i = choose|i: int| 0 <= i < from.len() && from[i] == k;
        assert(keep(i));
        assert(at.contains(i));
        let j = choose|j: int| 0 <= j < at.len() && at[j] == i;
        assert(ks[j] == k);
    }
    assert(dated_in_order(ks, r@, all, start, end));
    assert forall|id: u64| #[trigger]
        r@.contains(id) <==> exists|k: int|
            0 <= k < all.len() && all[k].1.frame_id == id && #[trigger] dated_within(
                all,
                k,
                start,
                end,
            ) by {
        if r@.contains(id) {
            let i = choose|i: int| 0 <= i < r@.len() && r@[i] == id;
            assert(dated_within(all, ks[i], start, end));
        }
        if exists|k: int|
            0 <= k < all.len() && all[k].1.frame_id == id && #[trigger] dated_within(
                all,
                k,
                start,
                end,
            ) {
            let k = choose|k: int|
                0 <= k < all.len() && all[k].1.frame_id == id && #[trigger] dated_within(
                    all,
                    k,
                    start,
                    end,
                );
            assert(ks.contains(k));
            let i = choose|i: int| 0 <= i < ks.len() && ks[i] == k;
            assert(r@[i] == id);
        }
    }
}

/// The time entries of a data file's index are, as a multiset, the ID and the time
/// of each of its frames.
pub proof fn time_entries_are_the_frames(frames: Seq<(u64, FrameView)>)
    ensures
        crate::split_memvid::built(frames).time_entries.to_multiset() == frames.map_values(
            |p: (u64, FrameView)|
                TimeEntry { frame_id: p.1.frame_id, timestamp: p.1.created_at },
        ).to_multiset(),
    decreases frames.len(),
{
    broadcast use vstd::seq_lib::group_to_multiset_ensures;

    let of = |p: (u64, FrameView)|
        TimeEntry { frame_id: p.1.frame_id, timestamp: p.1.created_at };
    let entries = crate::split_memvid::built(frames).time_entries;
    if frames.len() > 0 {
        let front = frames.drop_last();
        time_entries_are_the_frames(front);
        crate::store_laws::built_index_is_in_time_order(front);
        crate::mv2x::adding_keeps_time_order(
            crate::split_memvid::built(front).time_entries,
            of(frames.last()),
        );
        assert(frames.map_values(of) =~= front.map_values(of).push(of(frames.last())));
    } else {
        assert(entries =~= frames.map_values(of));
    }
}

/// The full-text index that is rebuilt has a document for each frame of the data
/// file that is active and not deleted or superseded, with its ID, URI, title, tags
/// and content, in the order of the file, and no other.
pub proof fn rebuilt_documents_are_the_live_frames(
    all: Seq<(u64, FrameJsonl)>,
    inactive: Set<u64>,
)
    ensures
        shows_live(
            crate::mv2x::documents_for(
                crate::split_memvid::active_of(crate::split_memvid::stored(all), inactive),
            ),
            all,
            inactive,
        ),
{
    let ks = lemma_live_documents(all, inactive);
    assert(live_places(ks, all, inactive));
}

proof fn lemma_live_documents(all: Seq<(u64, FrameJsonl)>, inactive: Set<u64>) -> (ks: Seq<int>)
    ensures
        live_places(ks, all, inactive),
        ({
            let documents = crate::mv2x::documents_for(
                crate::split_memvid::active_of(crate::split_memvid::stored(all), inactive),
            );
            &&& documents.len() == ks.len()
            &&& forall|j: int|
                0 <= j < ks.len() ==> shows(documents[j], all[#[trigger] ks[j]].1)
        }),
    decreases all.len(),
{
    let keep = |k: int| live_at(all, inactive, k);
    let frames = crate::split_memvid::stored(all);
    if all.len() == 0 {
        Seq::empty()
    } else {
        let front = all.drop_last();
        let n = front.len() as int;
        let front_keep = |k: int| live_at(front, inactive, k);
        let before = lemma_live_documents(front, inactive);
        assert(crate::split_memvid::stored(front) =~= frames.drop_last());
        assert(crate::select::places(before, n, front_keep));
        crate::select::lemma_places_agree(before, n, front_keep, keep);
        let ks = crate::select::lemma_places_grow(before, n, keep);
        let live = crate::split_memvid::active_of(frames.drop_last(), inactive);
        let frame = all.last().1;
        assert(frames.last() == (all.last().0, frame@));
        let documents = crate::mv2x::documents_for(
            crate::split_memvid::active_of(frames, inactive),
        );
        if keep(n) {
            assert(live.push(frame@).drop_last() =~= live);
            assert(documents == crate::mv2x::documents_for(live).push(
                crate::mv2x::document_of(frame@),
            ));
            assert(shows(crate::mv2x::document_of(frame@), frame));
        }
        assert forall|j: int| 0 <= j < ks.len() implies shows(
            documents[j],
            all[#[trigger] ks[j]].1,
        ) by {
            if j < before.len() {
                assert(ks[j] == before[j]);
                assert(front[before[j]] == all[ks[j]]);
            }
        }
        ks
    }
}

/// A search of the rebuilt full-text index whose limit leaves room for all frames
/// finds a frame of the data file exactly when it is active, not deleted or
/// superseded, and a word of the query stands anywhere in its content.
pub proof fn rebuilt_search_finds_the_live_frames(
    all: Seq<(u64, FrameJsonl)>,
    inactive: Set<u64>,
    query: Seq<char>,
    limit: usize,
    id: u64,
)
    requires
        crate::lex_laws::countable(query),
        forall|k: int|
            0 <= k < all.len() ==> crate::lex_laws::countable((#[trigger] all[k]).1.content@),
        all.len() < limit,
    ensures
        ({
            let hits = crate::mv2x::hits_in(
                Some(
                    crate::mv2x::documents_for(
                        crate::split_memvid::active_of(
                            crate::split_memvid::stored(all),
                            inactive,
                        ),
                    ),
                ),
                query,
                limit,
            );
            (exists|i: int| 0 <= i < hits.len() && (#[trigger] hits[i]).frame_id == id)
                <==> exists|k: int|
                0 <= k < all.len() && (#[trigger] all[k]).1.frame_id == id && all[k].1.status
                    == FrameStatus::Active && !inactive.contains(id)
                    && crate::lex_laws::is_match((id, all[k].1.content@), query)
        }),
{
    let documents = crate::mv2x::documents_for(
        crate::split_memvid::active_of(crate::split_memvid::stored(all), inactive),
    );
    let contents = crate::lex_laws::contents_of(documents);
    let hits = crate::mv2x::hits_in(Some(documents), query, limit);
    let keep = |k: int| live_at(all, inactive, k);
    let ks = lemma_live_documents(all, inactive);
    assert(crate::select::places(ks, all.len() as int, keep));
    lemma_increasing_len(ks, all.len() as int);
    assert forall|j: int| 0 <= j < documents.len() implies crate::lex_laws::countable(
        (#[trigger] documents[j]).content,
    ) by {
        assert(shows(documents[j], all[ks[j]].1));
    }
    crate::lex_laws::search_gives_the_best(documents, query, limit as nat);
    let from = choose|from: Seq<int>| #[trigger]
        crate::lex_laws::are_best(hits, from, contents, query, limit as nat);
    if exists|i: int| 0 <= i < hits.len() && (#[trigger] hits[i]).frame_id == id {
        let i = choose|i: int| 0 <= i < hits.len() && (#[trigger] hits[i]).frame_id == id;
        let j = from[i];
        assert(crate::lex_laws::is_match(contents[j], query));
        assert(keep(ks[j]));
        assert(shows(documents[j], all[ks[j]].1));
        assert(contents[j] == (id, all[ks[j]].1.content@));
    }
    if exists|k: int|
        0 <= k < all.len() && (#[trigger] all[k]).1.frame_id == id && all[k].1.status
            == FrameStatus::Active && !inactive.contains(id) && crate::lex_laws::is_match(
            (id, all[k].1.content@),
            query,
        ) {
        let k = choose|k: int|
            0 <= k < all.len() && (#[trigger] all[k]).1.frame_id == id && all[k].1.status
                == FrameStatus::Active && !inactive.contains(id) && crate::lex_laws::is_match(
                (id, all[k].1.content@),
                query,
            );
        assert(keep(k));
        assert(ks.contains(k));
        let j = choose|j: int| 0 <= j < ks.len() && ks[j] == k;
        assert(shows(documents[j], all[ks[j]].1));
        assert(contents[j] == (id, all[k].1.content@));
        crate::lex_laws::lemma_best_len(hits, from, contents, query, limit as nat);
        if !from.contains(j) {
            assert(hits.len() == limit);
        }
        let i = choose|i: int| 0 <= i < from.len() && from[i] == j;
        assert(hits[i].frame_id == id);
    }
}

proof fn lemma_increasing_len(ks: Seq<int>, n: int)
    requires
        forall|i: int, j: int| 0 <= i < j < ks.len() ==> #[trigger] ks[i] < #[trigger] ks[j],
        forall|j: int| 0 <= j < ks.len() ==> 0 <= #[trigger] ks[j] < n,
        n >= 0,
    ensures
        ks.len() <= n,
    decreases ks.len(),
{
    if ks.len() > 0 {
        let front = ks.drop_last();
        let last = ks.last();
        assert(0 <= ks[ks.len() - 1] < n);
        assert forall|j: int| 0 <= j < front.len() implies 0 <= #[trigger] front[j] < last by {
            assert(ks[j] < ks[ks.len() - 1]);
        }
        lemma_increasing_len(front, last);
    }
}

} // verus!
