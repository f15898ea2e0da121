//! The state of a store, and the rules by which it changes.
//!
//! The data file itself is read and written elsewhere. Where a rule needs the
//! frames of the file, it takes them with the byte offsets at which they start.
//! A frame is written in two steps: `put`, `put_frame`, `delete` or `update`
//! makes the frame that is to be appended, and `appended` takes it into the
//! state once it is in the file.

use crate::frame_jsonl::{FrameJsonl, FrameStatus, FrameView};
use crate::lex::{LexError, LexSearchHit};
use crate::mv2x::{FrameIndex, FrameOffset, Mv2xHeader, Mv2xIndex, TimeEntry};
use crate::mv2x_file::Mv2xError;
use crate::wire::HeaderView;
use std::collections::HashSet;
use vstd::prelude::*;

verus! {

broadcast use vstd::std_specs::hash::group_hash_axioms;

/// A split-file store. `M` is the knowledge graph.
#[derive(Debug)]
pub struct SplitMemvid<M> {
    /// The index.
    pub index: Mv2xIndex<M>,
    /// The ID of the next frame.
    pub next_frame_id: u64,
    /// The frames that are deleted or superseded.
    pub inactive_frames: HashSet<u64>,
}

/// Result of a compaction.
#[derive(Debug, Clone, Copy, PartialEq, Eq, Structural)]
pub struct CompactResult {
    pub original_frames: u64,
    pub active_frames: u64,
    pub removed_frames: u64,
}

/// Frames of a data file, each with the byte offset at which it starts.
pub open spec fn stored(s: Seq<(u64, FrameJsonl)>) -> Seq<(u64, FrameView)> {
    s.map_values(|p: (u64, FrameJsonl)| (p.0, p.1@))
}

/// The ID of the last frame.
pub open spec fn last_id(frames: Seq<(u64, FrameView)>) -> Option<u64> {
    if frames.len() == 0 {
        None
    } else {
        Some(frames.last().1.frame_id)
    }
}

/// The ID that follows the last one.
pub open spec fn id_after(last: Option<u64>) -> int {
    match last {
        Some(id) => id + 1,
        None => 0,
    }
}

/// The frames that `frames` delete or supersede.
pub open spec fn inactive_of(frames: Seq<(u64, FrameView)>) -> Set<u64>
    decreases frames.len(),
{
    if frames.len() == 0 {
        Set::empty()
    } else {
        with_superseded(inactive_of(frames.drop_last()), frames.last().1)
    }
}

/// `inactive` with the frame that `frame` deletes or supersedes.
pub open spec fn with_superseded(inactive: Set<u64>, frame: FrameView) -> Set<u64> {
    match frame.supersedes {
        Some(id) => inactive.insert(id),
        None => inactive,
    }
}

/// Whether `frame` is active, where `inactive` are deleted or superseded.
pub open spec fn is_live(frame: FrameView, inactive: Set<u64>) -> bool {
    frame.status == FrameStatus::Active && !inactive.contains(frame.frame_id)
}

/// The active ones of `frames`.
pub open spec fn active_of(frames: Seq<(u64, FrameView)>, inactive: Set<u64>) -> Seq<FrameView>
    decreases frames.len(),
{
    if frames.len() == 0 {
        Seq::empty()
    } else {
        let before = active_of(frames.drop_last(), inactive);
        if is_live(frames.last().1, inactive) {
            before.push(frames.last().1)
        } else {
            before
        }
    }
}

/// `ids` without those in `inactive`.
pub open spec fn ids_without(ids: Seq<u64>, inactive: Set<u64>) -> Seq<u64>
    decreases ids.len(),
{
    if ids.len() == 0 {
        Seq::empty()
    } else {
        let before = ids_without(ids.drop_last(), inactive);
        if inactive.contains(ids.last()) {
            before
        } else {
            before.push(ids.last())
        }
    }
}

/// The index of `frames`.
pub open spec fn built(frames: Seq<(u64, FrameView)>) -> FrameIndex
    decreases frames.len(),
{
    if frames.len() == 0 {
        FrameIndex::empty()
    } else {
        with_stored(built(frames.drop_last()), frames.last())
    }
}

/// `index` with a frame of the data file.
pub open spec fn with_stored(index: FrameIndex, frame: (u64, FrameView)) -> FrameIndex {
    index.with_frame(frame.1.frame_id, frame.0, frame.1.created_at)
}

/// `index` with the entries of `frames` in place of its own.
pub open spec fn caught_up(index: FrameIndex, frames: Seq<(u64, FrameView)>) -> FrameIndex {
    let fresh = built(frames);
    FrameIndex {
        header: HeaderView {
            frame_count: fresh.header.frame_count,
            last_indexed_frame_id: fresh.header.last_indexed_frame_id,
            ..index.header
        },
        offsets: fresh.offsets,
        time_entries: fresh.time_entries,
    }
}

/// The generation after `generation`. The last one has none after it.
pub open spec fn next_generation(generation: u64) -> u64 {
    if generation < u64::MAX {
        (generation + 1) as u64
    } else {
        generation
    }
}

/// The frame that `frame` becomes when it is the `i`th of a compacted file.
pub open spec fn renumbered(frame: FrameView, i: int) -> FrameView {
    FrameView { frame_id: i as u64, supersedes: None, ..frame }
}

/// What a compacted file holds of `active`.
pub open spec fn compacted_frames(active: Seq<FrameView>) -> Seq<FrameView> {
    Seq::new(active.len(), |i: int| renumbered(active[i], i))
}

/// What a store knows of its data file.
#[verifier::ext_equal]
pub struct StoreView {
    pub index: FrameIndex,
    pub next_frame_id: u64,
    pub inactive: Set<u64>,
}

impl StoreView {
    /// The store after `frame` was written at `offset`.
    pub open spec fn appended(self, offset: u64, frame: FrameView) -> StoreView {
        StoreView {
            index: with_stored(self.index, (offset, frame)),
            next_frame_id: (self.next_frame_id + 1) as u64,
            inactive: with_superseded(self.inactive, frame),
        }
    }

    /// The store after its index was built anew from the frames of the file.
    pub open spec fn rebuilt(self, frames: Seq<(u64, FrameView)>) -> StoreView {
        StoreView {
            index: built(frames).with_generation(next_generation(self.index.header.generation)),
            inactive: inactive_of(frames),
            ..self
        }
    }

    /// The store after its index was brought in step with the frames of the file:
    /// it holds them all, and none that the file does not hold.
    pub open spec fn reconciled(self, frames: Seq<(u64, FrameView)>) -> StoreView {
        StoreView {
            index: caught_up(self.index, frames).with_generation(
                next_generation(self.index.header.generation),
            ),
            inactive: inactive_of(frames),
            ..self
        }
    }

    /// The store of a file whose last frame is `last` and whose frames are
    /// `frames`, where `index` was loaded.
    pub open spec fn opened(
        last: Option<u64>,
        index: FrameIndex,
        frames: Seq<(u64, FrameView)>,
    ) -> StoreView {
        let loaded = StoreView {
            index,
            next_frame_id: id_after(last) as u64,
            inactive: inactive_of(frames),
        };
        if crate::mv2x::lags(index.header.last_indexed_frame_id, last) {
            loaded.reconciled(frames)
        } else {
            loaded
        }
    }
}

/// The index that a store starts with: that of the index file or, if there is
/// none or it cannot be read, that of the frames.
pub open spec fn loaded_index(
    index_file: Option<Seq<u8>>,
    frames: Seq<(u64, FrameView)>,
) -> FrameIndex {
    match index_file {
        Some(bytes) => match crate::mv2x_file::parsed(bytes) {
            Ok(file) => FrameIndex {
                header: file.header,
                offsets: file.offsets,
                time_entries: file.time_entries,
            },
            Err(_) => built(frames),
        },
        None => built(frames),
    }
}

/// The bytes of an optional file.
pub open spec fn content_of(file: Option<&[u8]>) -> Option<Seq<u8>> {
    match file {
        Some(bytes) => Some(bytes@),
        None => None,
    }
}

/// Takes the frame that `frame` deletes or supersedes into `inactive`.
fn note_superseded(inactive: &mut HashSet<u64>, frame: &FrameJsonl)
    ensures
        final(inactive)@ == with_superseded(old(inactive)@, frame@),
{
    if let Some(id) = frame.supersedes {
        inactive.insert(id);
    }
}

/// The frames that the frames of a data file delete or supersede.
fn scan_inactive_frames(frames: &[(u64, FrameJsonl)]) -> (r: HashSet<u64>)
    ensures
        r@ == inactive_of(stored(frames@)),
        crate::index_laws::names(r@, frames@),
{
    let mut inactive: HashSet<u64> = HashSet::new();
    let ghost all = stored(frames@);
    let mut i: usize = 0;
    while i < frames.len()
        invariant
            i <= frames@.len(),
            all == stored(frames@),
            inactive@ == inactive_of(all.take(i as int)),
        decreases frames@.len() - i,
    {
        assert(all.take(i + 1).drop_last() =~= all.take(i as int));
        note_superseded(&mut inactive, &frames[i].1);
        i = i + 1;
    }
    assert(all.take(i as int) =~= all);
    proof {
        crate::index_laws::inactive_frames_are_those_named(frames@);
    }
    inactive
}

/// Builds an index from the frames of a data file.
fn build_index<M>(frames: &[(u64, FrameJsonl)]) -> (r: Mv2xIndex<M>)
    ensures
        r.frame_index() == built(stored(frames@)),
        r.searches_nothing(),
        crate::index_laws::indexes(r, crate::index_laws::rows(frames@)),
        r.header.embedding_model is None,
        r.header.embedding_dim is None,
        r.header.generation == 0,
{
    let mut index: Mv2xIndex<M> = Mv2xIndex::new();
    let ghost all = stored(frames@);
    let mut i: usize = 0;
    while i < frames.len()
        invariant
            i <= frames@.len(),
            all == stored(frames@),
            index.frame_index() == built(all.take(i as int)),
            index.searches_nothing(),
        decreases frames@.len() - i,
    {
        assert(all.take(i + 1).drop_last() =~= all.take(i as int));
        let (offset, frame) = &frames[i];
        index.add_frame(frame.frame_id, *offset, frame.created_at);
        i = i + 1;
    }
    assert(all.take(i as int) =~= all);
    proof {
        crate::index_laws::built_index_has_every_frame(index, frames@);
    }
    index
}

impl<M> View for SplitMemvid<M> {
    type V = StoreView;

    open spec fn view(&self) -> StoreView {
        StoreView {
            index: self.index.frame_index(),
            next_frame_id: self.next_frame_id,
            inactive: self.inactive_frames@,
        }
    }
}

impl<M> SplitMemvid<M> {
    /// Opens a store. Takes the ID of the last frame of its data file, its index
    /// file if there is one, and the frames of the data file. Tells whether the
    /// index file has to be written.
    ///
    /// An index file that cannot be read is rebuilt from the frames.
    pub fn open(
        last: Option<u64>,
        index_file: Option<&[u8]>,
        frames: &[(u64, FrameJsonl)],
    ) -> (r: (Self, bool))
        requires
            last != Some(u64::MAX),
        ensures
            r.0@ == StoreView::opened(
                last,
                loaded_index(content_of(index_file), stored(frames@)),
                stored(frames@),
            ),
            r.0.index.lex_is_current(),
            match index_file {
                Some(bytes) => match crate::mv2x_file::parsed(bytes@) {
                    Ok(file) => {
                        &&& r.0.index.lex_index is None
                        &&& r.0.index.logic_mesh is None
                        &&& r.0.index.file_view().lex == file.lex
                        &&& r.0.index.file_view().vec == file.vec
                        &&& r.0.index.file_view().mesh == file.mesh
                        &&& crate::file_laws::blob_is(r.0.index.lex_bytes, file.lex)
                        &&& crate::file_laws::blob_is(r.0.index.vec_bytes, file.vec)
                        &&& crate::file_laws::blob_is(r.0.index.mesh_bytes, file.mesh)
                    },
                    Err(_) => r.0.index.searches_nothing(),
                },
                None => r.0.index.searches_nothing(),
            },
            r.1 == (index_file is None || crate::mv2x::lags(
                loaded_index(
                    content_of(index_file),
                    stored(frames@),
                ).header.last_indexed_frame_id,
                last,
            )),
            r.0.next_frame_id == match last {
                Some(id) => id + 1,
                None => 0,
            },
            crate::index_laws::names(r.0.inactive_frames@, frames@),
            match index_file {
                Some(bytes) => match crate::mv2x_file::parsed(bytes@) {
                    Ok(file) => if file.header.last_indexed_frame_id == last {
                        &&& r.0.index.header@ == file.header
                        &&& r.0.index.offsets@ == file.offsets
                        &&& r.0.index.time_entries@ == file.time_entries
                        &&& !r.1
                    } else {
                        &&& crate::index_laws::indexes(
                            r.0.index,
                            crate::index_laws::rows(frames@),
                        )
                        &&& r.0.index.header@.embedding_model == file.header.embedding_model
                        &&& r.0.index.header@.embedding_dim == file.header.embedding_dim
                        &&& r.1
                    },
                    Err(_) => crate::index_laws::indexes(
                        r.0.index,
                        crate::index_laws::rows(frames@),
                    ),
                },
                None => crate::index_laws::indexes(r.0.index, crate::index_laws::rows(frames@))
                    && r.1,
            },
    {
        let next_frame_id: u64 = match last {
            Some(id) => id + 1,
            None => 0,
        };
        let index: Mv2xIndex<M> = match index_file {
            Some(bytes) => match Mv2xIndex::read_from(bytes) {
                Ok(index) => index,
                Err(_) => build_index(frames),
            },
            None => build_index(frames),
        };
        let inactive_frames = scan_inactive_frames(frames);
        let mut store = SplitMemvid { index, next_frame_id, inactive_frames };
        let lagging = store.index.needs_reconciliation(last);
        if lagging {
            store.reconcile(frames);
        }
        (store, lagging || index_file.is_none())
    }

    /// Makes the frame that adds `content`.
    pub fn put(&self, content: &str) -> (r: FrameJsonl)
        ensures
            r@ == FrameView::plain(self.next_frame_id, content@, r.created_at),
            crate::index_laws::is_plain(r, self.next_frame_id, content@),
            crate::frame_jsonl::is_clock_time(r.created_at),
    {
        FrameJsonl::new(self.next_frame_id, content)
    }

    /// Makes the frame that adds `frame`, whatever ID it has.
    pub fn put_frame(&self, frame: FrameJsonl) -> (r: FrameJsonl)
        ensures
            r@ == frame@.with_id(self.next_frame_id),
            r == (FrameJsonl { frame_id: self.next_frame_id, ..frame }),
    {
        let mut frame = frame;
        frame.frame_id = self.next_frame_id;
        frame
    }

    /// Makes the tombstone that deletes a frame.
    pub fn delete(&self, target_frame_id: u64) -> (r: FrameJsonl)
        ensures
            r@ == FrameView::tombstone(self.next_frame_id, target_frame_id, r.created_at),
            crate::index_laws::is_tombstone(r, self.next_frame_id, target_frame_id),
            crate::frame_jsonl::is_clock_time(r.created_at),
    {
        let tombstone = FrameJsonl::tombstone(self.next_frame_id, target_frame_id);
        self.put_frame(tombstone)
    }

    /// Makes the new version of a frame.
    pub fn update(&self, old_frame_id: u64, new_content: &str) -> (r: FrameJsonl)
        ensures
            r@ == (FrameView {
                supersedes: Some(old_frame_id),
                ..FrameView::plain(self.next_frame_id, new_content@, r.created_at)
            }),
            r.supersedes == Some(old_frame_id),
            crate::index_laws::is_plain(
                (FrameJsonl { supersedes: None, ..r }),
                self.next_frame_id,
                new_content@,
            ),
            crate::frame_jsonl::is_clock_time(r.created_at),
    {
        let frame = FrameJsonl::new(self.next_frame_id, new_content).with_supersedes(
            old_frame_id,
        );
        self.put_frame(frame)
    }

    /// Takes a frame into the state that was written to the data file at `offset`.
    /// Gives its ID.
    pub fn appended(&mut self, frame: &FrameJsonl, offset: u64) -> (r: u64)
        requires
            old(self).next_frame_id < u64::MAX,
            frame.frame_id == old(self).next_frame_id,
        ensures
            final(self)@ == old(self)@.appended(offset, frame@),
            final(self).index.same_search(&old(self).index),
            r == frame.frame_id,
            forall|all: Seq<(u64, FrameJsonl)>| #[trigger]
                crate::index_laws::holds(*old(self), all) ==> crate::index_laws::holds(
                    *final(self),
                    all.push((offset, *frame)),
                ),
            final(self).next_frame_id == old(self).next_frame_id + 1,
            final(self).inactive_frames@ == match frame.supersedes {
                Some(id) => old(self).inactive_frames@.insert(id),
                None => old(self).inactive_frames@,
            },
            final(self).index.offsets@ == old(self).index.offsets@.push(
                FrameOffset { frame_id: frame.frame_id, byte_offset: offset },
            ),
            exists|p: int|
                0 <= p <= old(self).index.time_entries@.len() && final(self).index.time_entries@
                    == #[trigger] old(self).index.time_entries@.insert(
                    p,
                    TimeEntry { frame_id: frame.frame_id, timestamp: frame.created_at },
                ) && (forall|i: int|
                    p <= i < old(self).index.time_entries@.len() ==> (
                    #[trigger] old(self).index.time_entries@[i]).timestamp > frame.created_at) && (
                p > 0 ==> old(self).index.time_entries@[p - 1].timestamp <= frame.created_at),
            final(self).index.header.frame_count == old(self).index.offsets@.len() + 1,
            final(self).index.header.last_indexed_frame_id == Some(frame.frame_id),
            final(self).index.header.embedding_model == old(self).index.header.embedding_model,
            final(self).index.header.embedding_dim == old(self).index.header.embedding_dim,
            final(self).index.header.generation == old(self).index.header.generation,
            final(self).index.lex_bytes == old(self).index.lex_bytes,
            final(self).index.lex_index == old(self).index.lex_index,
            final(self).index.vec_bytes == old(self).index.vec_bytes,
            final(self).index.mesh_bytes == old(self).index.mesh_bytes,
            final(self).index.logic_mesh == old(self).index.logic_mesh,
    {
        note_superseded(&mut self.inactive_frames, frame);
        self.index.add_frame(frame.frame_id, offset, frame.created_at);
        self.next_frame_id = self.next_frame_id + 1;
        proof {
            let earlier = old(self).index.time_entries@;
            let entry = TimeEntry { frame_id: frame.frame_id, timestamp: frame.created_at };
            let p = choose|p: int|
                0 <= p <= earlier.len() && self.index.time_entries@ == #[trigger] earlier.insert(
                    p,
                    entry,
                ) && (forall|i: int|
                    p <= i < earlier.len() ==> (#[trigger] earlier[i]).timestamp
                        > frame.created_at) && (p > 0 ==> earlier[p - 1].timestamp
                    <= frame.created_at);
            assert forall|all: Seq<(u64, FrameJsonl)>| #[trigger]
                crate::index_laws::holds(*old(self), all) implies crate::index_laws::holds(
                *self,
                all.push((offset, *frame)),
            ) by {
                assert(self.index.header.frame_count == old(self).index.offsets@.len() + 1);
                assert(old(self).index.offsets@.len() == all.len());
                crate::index_laws::lemma_holds_one_more(
                    *old(self),
                    *self,
                    all,
                    offset,
                    *frame,
                    p,
                );
            }
        }
        frame.frame_id
    }

    /// The byte offset at which a frame can be read.
    pub fn get(&self, frame_id: u64) -> (r: Option<u64>)
        ensures
            r == crate::mv2x::offset_in(self.index.offsets@, frame_id),
            crate::index_laws::first_offset(r, self.index.offsets@, frame_id),
    {
        self.index.offset_for(frame_id)
    }

    /// The active ones of the frames of the data file.
    pub fn active_frames(&self, all: &[(u64, FrameJsonl)]) -> (r: Vec<FrameJsonl>)
        ensures
            crate::mv2x::frames_of(r@) == active_of(stored(all@), self.inactive_frames@),
            crate::index_laws::lists_live(r@, all@, self.inactive_frames@),
    {
        let mut active: Vec<FrameJsonl> = Vec::new();
        let ghost inactive = self.inactive_frames@;
        let ghost keep = |k: int| crate::index_laws::live_at(all@, inactive, k);
        let ghost mut ks: Seq<int> = Seq::empty();
        let ghost frames = stored(all@);
        let mut i: usize = 0;
        assert(crate::mv2x::frames_of(active@) =~= Seq::empty());
        while i < all.len()
            invariant
                i <= all@.len(),
                frames == stored(all@),
                crate::mv2x::frames_of(active@) == active_of(
                    frames.take(i as int),
                    self.inactive_frames@,
                ),
                inactive == self.inactive_frames@,
                keep == (|k: int| crate::index_laws::live_at(all@, inactive, k)),
                crate::select::places(ks, i as int, keep),
                active@.len() == ks.len(),
                forall|j: int|
                    0 <= j < ks.len() ==> crate::index_laws::same_frame(
                        active@[j],
                        all@[#[trigger] ks[j]].1,
                    ),
            decreases all@.len() - i,
        {
            proof {
                assert(frames.take(i + 1).drop_last() =~= frames.take(i as int));
                ks = crate::select::lemma_places_grow(ks, i as int, keep);
            }
            let frame = &all[i].1;
            if frame.is_active() && !self.inactive_frames.contains(&frame.frame_id) {
                let ghost before = crate::mv2x::frames_of(active@);
                active.push(frame.clone());
                assert(crate::mv2x::frames_of(active@) =~= before.push(frame@));
            }
            i = i + 1;
        }
        assert(frames.take(i as int) =~= frames);
        assert(crate::index_laws::live_places(ks, all@, inactive));
        active
    }

    /// The last active one of the frames of the data file.
    pub fn latest_active(&self, all: &[(u64, FrameJsonl)]) -> (r: Option<FrameJsonl>)
        ensures
            match r {
                Some(frame) => active_of(stored(all@), self.inactive_frames@).len() > 0
                    && active_of(stored(all@), self.inactive_frames@).last() == frame@,
                None => active_of(stored(all@), self.inactive_frames@).len() == 0,
            },
            match r {
                Some(frame) => exists|k: int|
                    0 <= k < all@.len() && #[trigger] crate::index_laws::live_at(
                        all@,
                        self.inactive_frames@,
                        k,
                    ) && crate::index_laws::same_frame(frame, all@[k].1) && forall|j: int|
                        k < j < all@.len() ==> !#[trigger] crate::index_laws::live_at(
                            all@,
                            self.inactive_frames@,
                            j,
                        ),
                None => forall|k: int|
                    0 <= k < all@.len() ==> !#[trigger] crate::index_laws::live_at(
                        all@,
                        self.inactive_frames@,
                        k,
                    ),
            },
    {
        let mut active = self.active_frames(all);
        let ghost views = crate::mv2x::frames_of(active@);
        assert(views.len() > 0 ==> views.last() == active@[active@.len() - 1]@);
        proof {
            let inactive = self.inactive_frames@;
            let ks = choose|ks: Seq<int>| #[trigger]
                crate::index_laws::live_places(ks, all@, inactive) && active@.len() == ks.len()
                    && forall|j: int|
                    0 <= j < ks.len() ==> crate::index_laws::same_frame(
                        active@[j],
                        all@[#[trigger] ks[j]].1,
                    );
            let keep = |k: int| crate::index_laws::live_at(all@, inactive, k);
            assert(crate::select::places(ks, all@.len() as int, keep));
            assert forall|k: int|
                0 <= k < all@.len() && #[trigger] crate::index_laws::live_at(
                    all@,
                    inactive,
                    k,
                ) implies ks.len() > 0 && k <= ks[ks.len() - 1] by {
                assert(keep(k));
                assert(ks.contains(k));
                let j = choose|j: int| 0 <= j < ks.len() && ks[j] == k;
                if j < ks.len() - 1 {
                    assert(ks[j] < ks[ks.len() - 1]);
                }
            }
            if ks.len() > 0 {
                let k = ks[ks.len() - 1];
                assert(keep(k));
                assert(crate::index_laws::live_at(all@, inactive, k));
            }
        }
        active.pop()
    }

    /// The frames created from `start` to `end`, both included, that are not
    /// deleted or superseded.
    pub fn frames_in_range(&self, start: i64, end: i64) -> (r: Vec<u64>)
        ensures
            r@ == ids_without(
                crate::mv2x::ids_in_range(self.index.time_entries@, start, end),
                self.inactive_frames@,
            ),
            crate::index_laws::lists_range(
                r@,
                self.index.time_entries@,
                self.inactive_frames@,
                start,
                end,
            ),
    {
        let ids = self.index.frames_in_range(start, end);
        let mut kept: Vec<u64> = Vec::new();
        let mut i: usize = 0;
        while i < ids.len()
            invariant
                i <= ids@.len(),
                kept@ == ids_without(ids@.take(i as int), self.inactive_frames@),
            decreases ids@.len() - i,
        {
            assert(ids@.take(i + 1).drop_last() =~= ids@.take(i as int));
            let id = ids[i];
            if !self.inactive_frames.contains(&id) {
                kept.push(id);
            }
            i = i + 1;
        }
        assert(ids@.take(i as int) =~= ids@);
        proof {
            crate::index_laws::range_lists_the_entries(
                self.index.time_entries@,
                self.inactive_frames@,
                start,
                end,
            );
        }
        kept
    }

    /// Full-text search over frame contents.
    pub fn lex_search(&mut self, query: &str, limit: usize) -> (r: Vec<LexSearchHit>)
        ensures
            r@ == crate::mv2x::hits_in(old(self).index.lex_documents(), query@, limit),
            match old(self).index.lex_documents() {
                Some(documents) => crate::lex_laws::best_hits(
                    r@,
                    crate::lex_laws::contents_of(documents),
                    query@,
                    limit as nat,
                ),
                None => r@.len() == 0,
            },
            *final(self) == (SplitMemvid {
                index: Mv2xIndex {
                    lex_bytes: final(self).index.lex_bytes,
                    lex_index: final(self).index.lex_index,
                    ..old(self).index
                },
                ..*old(self)
            }),
            final(self)@ == old(self)@,
            final(self).index.lex_bytes == old(self).index.lex_bytes,
            final(self).index.lex_documents() == old(self).index.lex_documents(),
            old(self).index.lex_is_current() ==> final(self).index.lex_is_current(),
            final(self).index.same_but_lex(&old(self).index),
    {
        self.index.lex_search(query, limit)
    }

    /// The knowledge graph, decoded from `decoded` if it has not been before.
    pub fn logic_mesh(&mut self, decoded: Option<M>) -> (r: Option<&M>)
        ensures
            final(self)@ == old(self)@,
            final(self).index == (Mv2xIndex {
                logic_mesh: old(self).index.mesh_with(decoded),
                ..old(self).index
            }),
            match r {
                Some(mesh) => old(self).index.mesh_with(decoded) == Some(*mesh),
                None => old(self).index.mesh_with(decoded) is None,
            },
            match r {
                Some(mesh) => old(self).index.logic_mesh == Some(*mesh) || (
                old(self).index.logic_mesh is None && old(self).index.mesh_bytes is Some && decoded
                    == Some(*mesh)),
                None => old(self).index.logic_mesh is None && (
                old(self).index.mesh_bytes is None || decoded is None),
            },
    {
        self.index.logic_mesh(decoded)
    }

    /// The knowledge graph for changes, decoded from `decoded` if it has not been
    /// before. It is serialised anew when the index file is written.
    pub fn logic_mesh_mut(&mut self, decoded: Option<M>) -> (r: Option<&mut M>)
        ensures
            match r {
                Some(mesh) => old(self).index.mesh_with(decoded) == Some(*mesh) && *final(self) == (
                SplitMemvid {
                    index: Mv2xIndex {
                        mesh_bytes: None,
                        logic_mesh: Some(*final(mesh)),
                        ..old(self).index
                    },
                    ..*old(self)
                }),
                None => old(self).index.mesh_with(decoded) is None && *final(self) == *old(self),
            },
            match r {
                Some(mesh) => old(self).index.logic_mesh == Some(*mesh) || (
                old(self).index.logic_mesh is None && old(self).index.mesh_bytes is Some && decoded
                    == Some(*mesh)),
                None => old(self).index.logic_mesh is None && (
                old(self).index.mesh_bytes is None || decoded is None),
            },
    {
        self.index.logic_mesh_mut(decoded)
    }

    /// Sets the knowledge graph.
    pub fn set_logic_mesh(&mut self, mesh: M)
        ensures
            *final(self) == (SplitMemvid {
                index: Mv2xIndex { mesh_bytes: None, logic_mesh: Some(mesh), ..old(self).index },
                ..*old(self)
            }),
    {
        self.index.set_logic_mesh(mesh);
    }

    /// Enters the next generation of the index.
    fn advance_generation(&mut self, generation: u64)
        ensures
            final(self)@ == (StoreView {
                index: old(self)@.index.with_generation(next_generation(generation)),
                ..old(self)@
            }),
            final(self).index.same_search(&old(self).index),
            *final(self) == (SplitMemvid {
                index: Mv2xIndex {
                    header: Mv2xHeader {
                        generation: final(self).index.header.generation,
                        ..old(self).index.header
                    },
                    ..old(self).index
                },
                ..*old(self)
            }),
            final(self).index.header.generation == if generation < u64::MAX {
                generation + 1
            } else {
                generation as int
            },
    {
        self.index.header.generation = if generation < u64::MAX {
            generation + 1
        } else {
            generation
        };
    }

    /// Rebuilds the full-text index from the active ones of the frames of the data
    /// file.
    pub fn rebuild_lex_index(&mut self, all: &[(u64, FrameJsonl)]) -> (r: Result<(), LexError>)
        ensures
            r is Ok,
            final(self).index.lex_documents() == Some(
                crate::mv2x::documents_for(active_of(stored(all@), old(self).inactive_frames@)),
            ),
            final(self).index.lex_bytes is Some,
            final(self).index.lex_bytes->0@ == crate::wire::wire_documents(
                crate::mv2x::documents_for(active_of(stored(all@), old(self).inactive_frames@)),
            ),
            final(self).index.lex_index is None,
            final(self).index.vec_bytes == old(self).index.vec_bytes,
            final(self).index.mesh_bytes == old(self).index.mesh_bytes,
            final(self).index.logic_mesh == old(self).index.logic_mesh,
            final(self)@ == (StoreView {
                index: old(self)@.index.with_generation(
                    next_generation(old(self)@.index.header.generation),
                ),
                ..old(self)@
            }),
            crate::index_laws::shows_live(
                final(self).index.lex_documents()->0,
                all@,
                old(self).inactive_frames@,
            ),
            final(self).index.offsets == old(self).index.offsets,
            final(self).index.time_entries == old(self).index.time_entries,
            final(self).index.header == (Mv2xHeader {
                generation: final(self).index.header.generation,
                ..old(self).index.header
            }),
            final(self).index.header.generation == if old(self).index.header.generation < u64::MAX {
                old(self).index.header.generation + 1
            } else {
                old(self).index.header.generation as int
            },
            final(self).next_frame_id == old(self).next_frame_id,
            final(self).inactive_frames@ == old(self).inactive_frames@,
    {
        let active = self.active_frames(all);
        let built = self.index.build_lex(active.as_slice());
        proof {
            crate::index_laws::documents_of_live_frames(
                self.index.lex_documents()->0,
                active@,
                all@,
                self.inactive_frames@,
            );
        }
        let generation = self.index.header.generation;
        self.advance_generation(generation);
        built
    }

    /// The bytes of the index file. A knowledge graph that has not been serialised
    /// is written as `saved`.
    pub fn flush_index(&mut self, saved: Option<Vec<u8>>) -> (r: Result<Vec<u8>, Mv2xError>)
        ensures
            *final(self) == (SplitMemvid {
                index: Mv2xIndex {
                    mesh_bytes: old(self).index.mesh_bytes_with(saved),
                    ..old(self).index
                },
                ..*old(self)
            }),
            r is Ok,
            r->Ok_0@ == crate::mv2x_file::file_bytes(final(self).index.file_view()),
            crate::file_laws::is_file_of(r->Ok_0@, final(self).index),
            final(self).index.mesh_bytes == match old(self).index.mesh_bytes {
                Some(bytes) => Some(bytes),
                None => match old(self).index.logic_mesh {
                    Some(_) => saved,
                    None => None,
                },
            },
    {
        self.index.write_to(saved)
    }

    /// Builds the index anew from the frames of the data file. What can be searched
    /// is lost. The index file has to be written then.
    pub fn rebuild_index(&mut self, all: &[(u64, FrameJsonl)])
        ensures
            final(self)@ == old(self)@.rebuilt(stored(all@)),
            final(self).index.searches_nothing(),
            crate::index_laws::indexes(final(self).index, crate::index_laws::rows(all@)),
            crate::index_laws::names(final(self).inactive_frames@, all@),
            final(self).next_frame_id == old(self).next_frame_id,
            final(self).index.header.embedding_model is None,
            final(self).index.header.embedding_dim is None,
            final(self).index.header.generation == if old(self).index.header.generation < u64::MAX {
                old(self).index.header.generation + 1
            } else {
                old(self).index.header.generation as int
            },
            final(self).index.lex_bytes is None,
            final(self).index.lex_index is None,
            final(self).index.vec_bytes is None,
            final(self).index.mesh_bytes is None,
            final(self).index.logic_mesh is None,
    {
        let generation = self.index.header.generation;
        self.index = build_index(all);
        self.inactive_frames = scan_inactive_frames(all);
        self.advance_generation(generation);
    }

    /// Brings the index in step with the frames of the data file: frames that it
    /// does not hold are indexed, and entries that the file does not bear out are
    /// dropped. What can be searched is kept. The index file has to be written then.
    pub fn reconcile(&mut self, all: &[(u64, FrameJsonl)])
        ensures
            final(self)@ == old(self)@.reconciled(stored(all@)),
            final(self).index.same_search(&old(self).index),
            crate::index_laws::indexes(final(self).index, crate::index_laws::rows(all@)),
            crate::index_laws::names(final(self).inactive_frames@, all@),
            final(self).next_frame_id == old(self).next_frame_id,
            final(self).index.header.embedding_model == old(self).index.header.embedding_model,
            final(self).index.header.embedding_dim == old(self).index.header.embedding_dim,
            final(self).index.header.generation == if old(self).index.header.generation < u64::MAX {
                old(self).index.header.generation + 1
            } else {
                old(self).index.header.generation as int
            },
            final(self).index.lex_bytes == old(self).index.lex_bytes,
            final(self).index.lex_index == old(self).index.lex_index,
            final(self).index.vec_bytes == old(self).index.vec_bytes,
            final(self).index.mesh_bytes == old(self).index.mesh_bytes,
            final(self).index.logic_mesh == old(self).index.logic_mesh,
    {
        let generation = self.index.header.generation;
        let fresh: Mv2xIndex<M> = build_index(all);
        self.index.header.frame_count = fresh.header.frame_count;
        self.index.header.last_indexed_frame_id = fresh.header.last_indexed_frame_id;
        self.index.offsets = fresh.offsets;
        self.index.time_entries = fresh.time_entries;
        self.inactive_frames = scan_inactive_frames(all);
        self.advance_generation(generation);
    }

    /// Makes the frames of a compacted data file: the active ones, numbered anew.
    pub fn compact(&self, all: &[(u64, FrameJsonl)]) -> (r: (Vec<FrameJsonl>, CompactResult))
        requires
            active_of(stored(all@), self.inactive_frames@).len() <= self.next_frame_id,
        ensures
            crate::mv2x::frames_of(r.0@) == compacted_frames(
                active_of(stored(all@), self.inactive_frames@),
            ),
            r.1.original_frames == self.next_frame_id,
            r.1.active_frames == r.0@.len(),
            r.1.removed_frames == self.next_frame_id - r.0@.len(),
            crate::index_laws::lists_compacted(r.0@, all@, self.inactive_frames@),
    {
        let active = self.active_frames(all);
        let ghost views = crate::mv2x::frames_of(active@);
        let count: u64 = active.len() as u64;
        let mut frames: Vec<FrameJsonl> = Vec::new();
        let mut i: usize = 0;
        while i < active.len()
            invariant
                i <= active@.len(),
                views == crate::mv2x::frames_of(active@),
                frames@.len() == i,
                forall|k: int| 0 <= k < i ==> (#[trigger] frames@[k])@ == renumbered(views[k], k),
                forall|k: int|
                    0 <= k < i ==> crate::index_laws::same_message(
                        #[trigger] frames@[k],
                        active@[k],
                    ) && frames@[k].frame_id == k && frames@[k].supersedes is None,
            decreases active@.len() - i,
        {
            let mut frame = active[i].clone();
            frame.frame_id = i as u64;
            frame.supersedes = None;
            assert(frame@ == renumbered(views[i as int], i as int));
            frames.push(frame);
            i = i + 1;
        }
        assert(crate::mv2x::frames_of(frames@) =~= compacted_frames(views));
        proof {
            let ks = choose|ks: Seq<int>| #[trigger]
                crate::index_laws::live_places(ks, all@, self.inactive_frames@) && active@.len()
                    == ks.len() && forall|j: int|
                    0 <= j < ks.len() ==> crate::index_laws::same_frame(
                        active@[j],
                        all@[#[trigger] ks[j]].1,
                    );
            assert forall|j: int| 0 <= j < ks.len() implies crate::index_laws::same_message(
                frames@[j],
                all@[#[trigger] ks[j]].1,
            ) && frames@[j].frame_id == j && frames@[j].supersedes is None by {
                assert(crate::index_laws::same_message(frames@[j], active@[j]));
                crate::index_laws::lemma_same_message(frames@[j], active@[j], all@[ks[j]].1);
            }
        }
        let result = CompactResult {
            original_frames: self.next_frame_id,
            active_frames: count,
            removed_frames: self.next_frame_id - count,
        };
        (frames, result)
    }

    /// Takes into the state that the data file was compacted to `all`, which are
    /// `active_count` frames. The index file has to be written then.
    pub fn compacted(&mut self, active_count: u64, all: &[(u64, FrameJsonl)])
        ensures
            final(self)@ == (StoreView {
                next_frame_id: active_count,
                ..old(self)@.rebuilt(stored(all@))
            }),
            final(self).index.searches_nothing(),
            crate::index_laws::indexes(final(self).index, crate::index_laws::rows(all@)),
            crate::index_laws::names(final(self).inactive_frames@, all@),
            final(self).next_frame_id == active_count,
            final(self).index.header.embedding_model is None,
            final(self).index.header.embedding_dim is None,
            final(self).index.header.generation == if old(self).index.header.generation < u64::MAX {
                old(self).index.header.generation + 1
            } else {
                old(self).index.header.generation as int
            },
            final(self).index.lex_bytes is None,
            final(self).index.lex_index is None,
            final(self).index.vec_bytes is None,
            final(self).index.mesh_bytes is None,
            final(self).index.logic_mesh is None,
    {
        self.next_frame_id = active_count;
        self.inactive_frames.clear();
        self.rebuild_index(all);
    }

    /// The number of frames, inactive ones included.
    pub fn frame_count(&self) -> (r: u64)
        ensures
            r == self.next_frame_id,
    {
        self.next_frame_id
    }

    /// The number of frames that are not deleted or superseded.
    pub fn active_frame_count(&self) -> (r: u64)
        requires
            self.inactive_frames@.len() <= self.next_frame_id,
        ensures
            r == self.next_frame_id - self.inactive_frames@.len(),
    {
        self.next_frame_id - self.inactive_frames.len() as u64
    }

    /// The share of frames that are deleted or superseded, as a numerator and a
    /// denominator.
    pub fn tombstone_ratio(&self) -> (r: (u64, u64))
        ensures
            self.next_frame_id == 0 ==> r == (0u64, 1u64),
            self.next_frame_id > 0 ==> r.0 == self.inactive_frames@.len() && r.1
                == self.next_frame_id,
    {
        if self.next_frame_id == 0 {
            return (0, 1);
        }
        (self.inactive_frames.len() as u64, self.next_frame_id)
    }
}

} // verus!
