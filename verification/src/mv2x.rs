//! The index of a store, and the `.mv2x` file that keeps it.
//!
//! The index holds where each frame starts in the data file, when it was
//! created, and what the full-text, vector and knowledge graph searches need.
//! All of it is derived from the data file.

use crate::frame_jsonl::{FrameJsonl, FrameStatus, FrameView};
use crate::lex::{LexError, LexIndex, LexIndexArtifact, LexIndexBuilder, LexSearchHit};
use crate::wire::{DocumentView, HeaderView};
use vstd::prelude::*;

verus! {

/// Header of an index.
#[derive(Debug)]
pub struct Mv2xHeader {
    /// Embedding model name (for mismatch detection).
    pub embedding_model: Option<String>,
    /// Embedding dimensions.
    pub embedding_dim: Option<u32>,
    /// Number of frames indexed.
    pub frame_count: u64,
    /// The frame that was indexed last (for reconciliation).
    pub last_indexed_frame_id: Option<u64>,
    /// Generation counter (incremented on each rebuild or catch-up).
    pub generation: u64,
}

impl View for Mv2xHeader {
    type V = HeaderView;

    open spec fn view(&self) -> HeaderView {
        HeaderView {
            embedding_model: crate::codec::text_of(self.embedding_model),
            embedding_dim: self.embedding_dim,
            frame_count: self.frame_count,
            last_indexed_frame_id: self.last_indexed_frame_id,
            generation: self.generation,
        }
    }
}

/// The header of an empty index.
pub open spec fn empty_header() -> HeaderView {
    HeaderView {
        embedding_model: None,
        embedding_dim: None,
        frame_count: 0,
        last_indexed_frame_id: None,
        generation: 0,
    }
}

impl Default for Mv2xHeader {
    fn default() -> (r: Self)
        ensures
            r@ == empty_header(),
            r.embedding_model is None,
            r.embedding_dim is None,
            r.frame_count == 0,
            r.last_indexed_frame_id is None,
            r.generation == 0,
    {
        Mv2xHeader {
            embedding_model: None,
            embedding_dim: None,
            frame_count: 0,
            last_indexed_frame_id: None,
            generation: 0,
        }
    }
}

impl Clone for Mv2xHeader {
    fn clone(&self) -> (r: Self)
        ensures
            r@ == self@,
            crate::index_laws::same_text(r.embedding_model, self.embedding_model),
            r.embedding_dim == self.embedding_dim,
            r.frame_count == self.frame_count,
            r.last_indexed_frame_id == self.last_indexed_frame_id,
            r.generation == self.generation,
    {
        Mv2xHeader {
            embedding_model: crate::frame_jsonl::copy_text(&self.embedding_model),
            embedding_dim: self.embedding_dim,
            frame_count: self.frame_count,
            last_indexed_frame_id: self.last_indexed_frame_id,
            generation: self.generation,
        }
    }
}

/// Where a frame starts in the data file.
#[derive(Debug, Clone, Copy, PartialEq, Eq, Structural)]
pub struct FrameOffset {
    pub frame_id: u64,
    pub byte_offset: u64,
}

/// When a frame was created.
#[derive(Debug, Clone, Copy, PartialEq, Eq, Structural)]
pub struct TimeEntry {
    pub frame_id: u64,
    pub timestamp: i64,
}

/// An index in memory. `M` is the knowledge graph.
#[derive(Debug)]
pub struct Mv2xIndex<M> {
    pub header: Mv2xHeader,
    /// Where each frame starts in the data file.
    pub offsets: Vec<FrameOffset>,
    /// Chronologically sorted time entries.
    pub time_entries: Vec<TimeEntry>,
    /// Full-text index, serialised.
    pub lex_bytes: Option<Vec<u8>>,
    /// Full-text index, decoded.
    pub lex_index: Option<LexIndex>,
    /// Vector index, serialised.
    pub vec_bytes: Option<Vec<u8>>,
    /// Knowledge graph, serialised.
    pub mesh_bytes: Option<Vec<u8>>,
    /// Knowledge graph, decoded.
    pub logic_mesh: Option<M>,
}

/// The offset of the first entry for `frame_id`.
pub open spec fn offset_in(offsets: Seq<FrameOffset>, frame_id: u64) -> Option<u64>
    decreases offsets.len(),
{
    if offsets.len() == 0 {
        None
    } else if offsets[0].frame_id == frame_id {
        Some(offsets[0].byte_offset)
    } else {
        offset_in(offsets.drop_first(), frame_id)
    }
}

/// `entries` with `entry` behind all that are not later than it.
pub open spec fn insert_by_time(entries: Seq<TimeEntry>, entry: TimeEntry) -> Seq<TimeEntry>
    decreases entries.len(),
{
    if entries.len() > 0 && entries.last().timestamp > entry.timestamp {
        insert_by_time(entries.drop_last(), entry).push(entries.last())
    } else {
        entries.push(entry)
    }
}

/// The frames of the entries from `start` to `end`, in the order of the entries.
pub open spec fn ids_in_range(entries: Seq<TimeEntry>, start: i64, end: i64) -> Seq<u64>
    decreases entries.len(),
{
    if entries.len() == 0 {
        Seq::empty()
    } else {
        let ids = ids_in_range(entries.drop_last(), start, end);
        if start <= entries.last().timestamp <= end {
            ids.push(entries.last().frame_id)
        } else {
            ids
        }
    }
}

/// Whether an index whose last frame is `indexed` has to catch up with a data
/// file whose last frame is `stored`.
pub open spec fn lags(indexed: Option<u64>, stored: Option<u64>) -> bool {
    indexed != stored
}

/// The part of an index that is derived from the frames of a data file one by
/// one.
#[verifier::ext_equal]
pub struct FrameIndex {
    pub header: HeaderView,
    pub offsets: Seq<FrameOffset>,
    pub time_entries: Seq<TimeEntry>,
}

impl FrameIndex {
    /// The index of no frames.
    pub open spec fn empty() -> FrameIndex {
        FrameIndex {
            header: empty_header(),
            offsets: Seq::empty(),
            time_entries: Seq::empty(),
        }
    }

    /// The index with another frame.
    pub open spec fn with_frame(
        self,
        frame_id: u64,
        byte_offset: u64,
        timestamp: i64,
    ) -> FrameIndex {
        FrameIndex {
            header: HeaderView {
                frame_count: (self.offsets.len() + 1) as u64,
                last_indexed_frame_id: Some(frame_id),
                ..self.header
            },
            offsets: self.offsets.push(FrameOffset { frame_id, byte_offset }),
            time_entries: insert_by_time(self.time_entries, TimeEntry { frame_id, timestamp }),
        }
    }

    /// The index under another generation.
    pub open spec fn with_generation(self, generation: u64) -> FrameIndex {
        FrameIndex { header: HeaderView { generation, ..self.header }, ..self }
    }
}

/// The place of the insertion.
proof fn lemma_insert_by_time_at(entries: Seq<TimeEntry>, entry: TimeEntry, at: int)
    requires
        0 <= at <= entries.len(),
        forall|i: int| at <= i < entries.len() ==> (#[trigger] entries[i]).timestamp
            > entry.timestamp,
        at > 0 ==> entries[at - 1].timestamp <= entry.timestamp,
    ensures
        insert_by_time(entries, entry) == entries.insert(at, entry),
    decreases entries.len(),
{
    if at == entries.len() {
        assert(entries.insert(at, entry) =~= entries.push(entry));
    } else {
        assert(entries[entries.len() - 1].timestamp > entry.timestamp);
        lemma_insert_by_time_at(entries.drop_last(), entry, at);
        assert(entries.drop_last().insert(at, entry).push(entries.last()) =~= entries.insert(
            at,
            entry,
        ));
    }
}

impl<M> Default for Mv2xIndex<M> {
    fn default() -> (r: Self)
        ensures
            r.frame_index() == FrameIndex::empty(),
            r.searches_nothing(),
            r.header.embedding_model is None,
            r.header.embedding_dim is None,
            r.header.generation == 0,
            crate::index_laws::indexes(r, Seq::empty()),
            r.lex_bytes is None,
            r.lex_index is None,
            r.vec_bytes is None,
            r.mesh_bytes is None,
            r.logic_mesh is None,
    {
        Mv2xIndex::new()
    }
}

impl<M> Mv2xIndex<M> {
    /// Whether the index has nothing to search in.
    pub open spec fn searches_nothing(&self) -> bool {
        &&& self.lex_bytes is None
        &&& self.lex_index is None
        &&& self.vec_bytes is None
        &&& self.mesh_bytes is None
        &&& self.logic_mesh is None
    }

    /// Whether the search indices of `self` are those of `other`.
    pub open spec fn same_search(&self, other: &Self) -> bool {
        &&& self.lex_bytes == other.lex_bytes
        &&& self.lex_index == other.lex_index
        &&& self.vec_bytes == other.vec_bytes
        &&& self.mesh_bytes == other.mesh_bytes
        &&& self.logic_mesh == other.logic_mesh
    }

    /// What the index says of the frames themselves.
    pub open spec fn frame_index(&self) -> FrameIndex {
        FrameIndex {
            header: self.header@,
            offsets: self.offsets@,
            time_entries: self.time_entries@,
        }
    }

    /// Creates an empty index.
    pub fn new() -> (r: Self)
        ensures
            r.frame_index() == FrameIndex::empty(),
            r.searches_nothing(),
            r.header.embedding_model is None,
            r.header.embedding_dim is None,
            r.header.generation == 0,
            crate::index_laws::indexes(r, Seq::empty()),
            r.lex_bytes is None,
            r.lex_index is None,
            r.vec_bytes is None,
            r.mesh_bytes is None,
            r.logic_mesh is None,
    {
        let r = Mv2xIndex {
            header: Mv2xHeader::default(),
            offsets: Vec::new(),
            time_entries: Vec::new(),
            lex_bytes: None,
            lex_index: None,
            vec_bytes: None,
            mesh_bytes: None,
            logic_mesh: None,
        };
        assert(crate::index_laws::sorted_from(
            Seq::empty(),
            r.time_entries@,
            Seq::<(u64, u64, i64)>::empty(),
        ));
        r
    }

    /// Adds a frame to the offset and time indices.
    pub fn add_frame(&mut self, frame_id: u64, byte_offset: u64, timestamp: i64)
        ensures
            final(self).frame_index() == old(self).frame_index().with_frame(
                frame_id,
                byte_offset,
                timestamp,
            ),
            final(self).same_search(old(self)),
            final(self).offsets@ == old(self).offsets@.push(FrameOffset { frame_id, byte_offset }),
            exists|p: int|
                0 <= p <= old(self).time_entries@.len() && final(self).time_entries@
                    == #[trigger] old(self).time_entries@.insert(
                    p,
                    TimeEntry { frame_id, timestamp },
                ) && (forall|i: int|
                    p <= i < old(self).time_entries@.len() ==> (
                    #[trigger] old(self).time_entries@[i]).timestamp > timestamp) && (p > 0 ==> old(
                    self,
                ).time_entries@[p - 1].timestamp <= timestamp),
            final(self).header.frame_count == old(self).offsets@.len() + 1,
            final(self).header.last_indexed_frame_id == Some(frame_id),
            final(self).header.embedding_model == old(self).header.embedding_model,
            final(self).header.embedding_dim == old(self).header.embedding_dim,
            final(self).header.generation == old(self).header.generation,
            final(self).lex_bytes == old(self).lex_bytes,
            final(self).lex_index == old(self).lex_index,
            final(self).vec_bytes == old(self).vec_bytes,
            final(self).mesh_bytes == old(self).mesh_bytes,
            final(self).logic_mesh == old(self).logic_mesh,
    {
        self.offsets.push(FrameOffset { frame_id, byte_offset });
        let entry = TimeEntry { frame_id, timestamp };
        let count: usize = self.time_entries.len();
        let mut at: usize = count;
        while at > 0 && self.time_entries[at - 1].timestamp > timestamp
            invariant
                at <= count,
                count == self.time_entries@.len(),
                forall|i: int| at <= i < count ==> (#[trigger] self.time_entries@[i]).timestamp
                    > timestamp,
            decreases at,
        {
            at = at - 1;
        }
        proof {
            lemma_insert_by_time_at(self.time_entries@, entry, at as int);
        }
        self.time_entries.insert(at, entry);
        self.header.frame_count = self.offsets.len() as u64;
        self.header.last_indexed_frame_id = Some(frame_id);
    }

    /// The byte offset of a frame.
    pub fn offset_for(&self, frame_id: u64) -> (r: Option<u64>)
        ensures
            r == offset_in(self.offsets@, frame_id),
            crate::index_laws::first_offset(r, self.offsets@, frame_id),
    {
        proof {
            crate::index_laws::lookup_finds_the_first(self.offsets@, frame_id);
        }
        let mut i: usize = 0;
        assert(self.offsets@.skip(0) =~= self.offsets@);
        while i < self.offsets.len()
            invariant
                i <= self.offsets@.len(),
                crate::index_laws::first_offset(
                    offset_in(self.offsets@, frame_id),
                    self.offsets@,
                    frame_id,
                ),
                offset_in(self.offsets@, frame_id) == offset_in(
                    self.offsets@.skip(i as int),
                    frame_id,
                ),
            decreases self.offsets@.len() - i,
        {
            let entry = self.offsets[i];
            if entry.frame_id == frame_id {
                return Some(entry.byte_offset);
            }
            assert(self.offsets@.skip(i as int).drop_first() =~= self.offsets@.skip(i + 1));
            i = i + 1;
        }
        None
    }

    /// The frames created from `start` to `end`, both included.
    pub fn frames_in_range(&self, start: i64, end: i64) -> (r: Vec<u64>)
        ensures
            r@ == ids_in_range(self.time_entries@, start, end),
            crate::index_laws::lists_range(
                r@,
                self.time_entries@,
                Set::empty(),
                start,
                end,
            ),
    {
        let mut ids: Vec<u64> = Vec::new();
        let ghost entries = self.time_entries@;
        let ghost keep = |k: int|
            start <= entries[k].timestamp <= end && !Set::<u64>::empty().contains(
                entries[k].frame_id,
            );
        let ghost mut ks: Seq<int> = Seq::empty();
        let mut i: usize = 0;
        while i < self.time_entries.len()
            invariant
                i <= self.time_entries@.len(),
                ids@ == ids_in_range(self.time_entries@.take(i as int), start, end),
                entries == self.time_entries@,
                keep == (|k: int|
                    start <= entries[k].timestamp <= end && !Set::<u64>::empty().contains(
                        entries[k].frame_id,
                    )),
                crate::select::places(ks, i as int, keep),
                ids@.len() == ks.len(),
                forall|j: int|
                    0 <= j < ks.len() ==> ids@[j] == entries[#[trigger] ks[j]].frame_id,
            decreases self.time_entries@.len() - i,
        {
            let entry = self.time_entries[i];
            assert(self.time_entries@.take(i + 1).drop_last() =~= self.time_entries@.take(
                i as int,
            ));
            proof {
                ks = crate::select::lemma_places_grow(ks, i as int, keep);
            }
            if entry.timestamp >= start && entry.timestamp <= end {
                ids.push(entry.frame_id);
            }
            i = i + 1;
        }
        assert(self.time_entries@.take(i as int) =~= self.time_entries@);
        assert(crate::index_laws::time_places(ks, entries, Set::empty(), start, end));
        ids
    }

    /// Whether the index has to catch up with a data file whose last frame is
    /// `mv2d_last_frame_id`.
    pub fn needs_reconciliation(&self, mv2d_last_frame_id: Option<u64>) -> (r: bool)
        ensures
            r == lags(self.header.last_indexed_frame_id, mv2d_last_frame_id),
            r == (self.header.last_indexed_frame_id != mv2d_last_frame_id),
    {
        match (self.header.last_indexed_frame_id, mv2d_last_frame_id) {
            (None, None) => false,
            (None, Some(_)) => true,
            (Some(_), None) => true,
            (Some(indexed), Some(stored)) => indexed != stored,
        }
    }
}

/// Whether entries are in chronological order.
pub open spec fn in_time_order(entries: Seq<TimeEntry>) -> bool {
    forall|i: int, j: int|
        0 <= i < j < entries.len() ==> (#[trigger] entries[i]).timestamp <= (
        #[trigger] entries[j]).timestamp
}

/// Adding a frame keeps the time entries in chronological order.
pub proof fn adding_keeps_time_order(entries: Seq<TimeEntry>, entry: TimeEntry)
    requires
        in_time_order(entries),
    ensures
        in_time_order(insert_by_time(entries, entry)),
        insert_by_time(entries, entry).len() == entries.len() + 1,
        insert_by_time(entries, entry).to_multiset() == entries.to_multiset().insert(entry),
    decreases entries.len(),
{
    broadcast use vstd::seq_lib::group_to_multiset_ensures;

    if entries.len() > 0 && entries.last().timestamp > entry.timestamp {
        let front = entries.drop_last();
        let rest = insert_by_time(front, entry);
        adding_keeps_time_order(front, entry);
        assert(front.push(entries.last()) =~= entries);
        assert(rest.push(entries.last()).to_multiset() =~= entries.to_multiset().insert(entry));
        assert forall|i: int| 0 <= i < rest.len() implies (#[trigger] rest[i]).timestamp
            <= entries.last().timestamp by {
            assert(rest.to_multiset().contains(rest[i]));
            if rest[i] != entry {
                assert(front.to_multiset().contains(rest[i]));
                assert(front.contains(rest[i]));
                let k = choose|k: int| 0 <= k < front.len() && front[k] == rest[i];
                assert(entries[k].timestamp <= entries[entries.len() - 1].timestamp);
            }
        }
    }
}

/// A frame is found in a range exactly when its time lies in it.
pub proof fn range_is_exact(entries: Seq<TimeEntry>, start: i64, end: i64, frame_id: u64)
    ensures
        ids_in_range(entries, start, end).contains(frame_id) <==> exists|i: int|
            0 <= i < entries.len() && (#[trigger] entries[i]).frame_id == frame_id && start
                <= entries[i].timestamp <= end,
    decreases entries.len(),
{
    if entries.len() > 0 {
        let front = entries.drop_last();
        let ids = ids_in_range(front, start, end);
        let all = ids_in_range(entries, start, end);
        let last = entries.last();
        range_is_exact(front, start, end, frame_id);
        if all.contains(frame_id) {
            let k = choose|k: int| 0 <= k < all.len() && all[k] == frame_id;
            if k < ids.len() {
                assert(ids[k] == frame_id);
                let i = choose|i: int|
                    0 <= i < front.len() && (#[trigger] front[i]).frame_id == frame_id && start
                        <= front[i].timestamp <= end;
                assert(entries[i] == front[i]);
            } else {
                assert(entries[entries.len() - 1] == last);
            }
        }
        if exists|i: int|
            0 <= i < entries.len() && (#[trigger] entries[i]).frame_id == frame_id && start
                <= entries[i].timestamp <= end {
            let i = choose|i: int|
                0 <= i < entries.len() && (#[trigger] entries[i]).frame_id == frame_id && start
                    <= entries[i].timestamp <= end;
            if i < front.len() {
                assert(front[i] == entries[i]);
                assert(ids.contains(frame_id));
                let k = choose|k: int| 0 <= k < ids.len() && ids[k] == frame_id;
                assert(all[k] == frame_id);
            } else {
                assert(all[all.len() - 1] == frame_id);
            }
        }
    }
}

/// What the full-text index keeps of a frame.
pub open spec fn document_of(frame: FrameView) -> DocumentView {
    DocumentView {
        frame_id: frame.frame_id,
        uri: match frame.uri {
            Some(uri) => uri,
            None => Seq::empty(),
        },
        title: frame.title,
        content: frame.content,
        tags: frame.tags,
    }
}

/// What the full-text index keeps of `frames`: a document for each active frame.
pub open spec fn documents_for(frames: Seq<FrameView>) -> Seq<DocumentView>
    decreases frames.len(),
{
    if frames.len() == 0 {
        Seq::empty()
    } else {
        let documents = documents_for(frames.drop_last());
        if frames.last().status == FrameStatus::Active {
            documents.push(document_of(frames.last()))
        } else {
            documents
        }
    }
}

/// Frames with their text as characters.
pub open spec fn frames_of(s: Seq<FrameJsonl>) -> Seq<FrameView> {
    s.map_values(|f: FrameJsonl| f@)
}

/// The hits of a search in an index that may be missing.
pub open spec fn hits_in(
    documents: Option<Seq<DocumentView>>,
    query: Seq<char>,
    limit: usize,
) -> Seq<LexSearchHit> {
    match documents {
        Some(d) => crate::lex::search_result(d, query, limit as nat),
        None => Seq::empty(),
    }
}

impl<M> Mv2xIndex<M> {
    /// The documents that a full-text search looks at, if the index has any: the
    /// decoded ones, or else those that the serialised bytes start with.
    pub open spec fn lex_documents(&self) -> Option<Seq<DocumentView>> {
        match self.lex_index {
            Some(index) => Some(index@),
            None => match self.lex_bytes {
                Some(bytes) => crate::lex::decoded_documents(bytes@),
                None => None,
            },
        }
    }

    /// Whether the decoded full-text index, if there is one, is what the
    /// serialised bytes decode to.
    pub open spec fn lex_is_current(&self) -> bool {
        self.lex_index matches Some(index) ==> self.lex_bytes is Some
            && crate::lex::decoded_documents(self.lex_bytes->0@) == Some(index@)
    }

    /// Whether `self` and `other` are equal but for the full-text index.
    pub open spec fn same_but_lex(&self, other: &Self) -> bool {
        &&& self.frame_index() == other.frame_index()
        &&& self.vec_bytes == other.vec_bytes
        &&& self.mesh_bytes == other.mesh_bytes
        &&& self.logic_mesh == other.logic_mesh
    }

    /// Sets the full-text index. It is decoded when it is first searched.
    pub fn set_lex(&mut self, artifact: LexIndexArtifact)
        ensures
            final(self).lex_bytes == Some(artifact.bytes),
            final(self).lex_index is None,
            final(self).same_but_lex(old(self)),
            *final(self) == (Mv2xIndex {
                lex_bytes: final(self).lex_bytes,
                lex_index: final(self).lex_index,
                ..*old(self)
            }),
    {
        self.lex_bytes = Some(artifact.bytes);
        self.lex_index = None;
    }

    /// Full-text search over the indexed frames. An index that cannot be decoded
    /// gives no hits.
    pub fn lex_search(&mut self, query: &str, limit: usize) -> (r: Vec<LexSearchHit>)
        ensures
            r@ == hits_in(old(self).lex_documents(), query@, limit),
            match old(self).lex_documents() {
                Some(documents) => crate::lex_laws::best_hits(
                    r@,
                    crate::lex_laws::contents_of(documents),
                    query@,
                    limit as nat,
                ),
                None => r@.len() == 0,
            },
            final(self).lex_bytes == old(self).lex_bytes,
            final(self).lex_documents() == old(self).lex_documents(),
            old(self).lex_is_current() ==> final(self).lex_is_current(),
            final(self).same_but_lex(old(self)),
            *final(self) == (Mv2xIndex {
                lex_bytes: final(self).lex_bytes,
                lex_index: final(self).lex_index,
                ..*old(self)
            }),
    {
        if self.lex_index.is_none() {
            let decoded = match &self.lex_bytes {
                Some(bytes) => match LexIndex::decode(bytes.as_slice()) {
                    Ok(index) => Some(index),
                    Err(_) => None,
                },
                None => None,
            };
            self.lex_index = decoded;
        }
        match &self.lex_index {
            Some(index) => {
                assert(crate::lex_laws::contents_of(index@) =~= Seq::new(
                    index.documents@.len(),
                    |k: int| (index.documents@[k].frame_id, index.documents@[k].content@),
                ));
                index.search(query, limit)
            },
            None => Vec::new(),
        }
    }

    /// Builds the full-text index from the active ones of `frames`.
    pub fn build_lex(&mut self, frames: &[FrameJsonl]) -> (r: Result<(), LexError>)
        ensures
            r is Ok,
            final(self).lex_bytes is Some,
            final(self).lex_bytes->0@ == crate::wire::wire_documents(
                documents_for(frames_of(frames@)),
            ),
            final(self).lex_index is None,
            final(self).lex_documents() == Some(documents_for(frames_of(frames@))),
            final(self).same_but_lex(old(self)),
            *final(self) == (Mv2xIndex {
                lex_bytes: final(self).lex_bytes,
                lex_index: final(self).lex_index,
                ..*old(self)
            }),
            crate::index_laws::shows_active(final(self).lex_documents()->0, frames@),
    {
        let mut builder = LexIndexBuilder::new();
        let ghost keep = |k: int| frames@[k].status == FrameStatus::Active;
        let ghost mut ks: Seq<int> = Seq::empty();
        let ghost views = frames_of(frames@);
        let mut i: usize = 0;
        while i < frames.len()
            invariant
                i <= frames@.len(),
                views == frames_of(frames@),
                builder@ == documents_for(views.take(i as int)),
                keep == (|k: int| frames@[k].status == FrameStatus::Active),
                crate::select::places(ks, i as int, keep),
                builder@.len() == ks.len(),
                forall|j: int|
                    0 <= j < ks.len() ==> crate::index_laws::shows(
                        builder@[j],
                        frames@[#[trigger] ks[j]],
                    ),
            decreases frames@.len() - i,
        {
            let frame = &frames[i];
            proof {
                assert(views.take(i + 1).drop_last() =~= views.take(i as int));
                assert(views.take(i + 1).last() == frame@);
                reveal_strlit("");
                assert(""@ =~= Seq::<char>::empty());
                ks = crate::select::lemma_places_grow(ks, i as int, keep);
            }
            let ghost before = builder@;
            if frame.is_active() {
                let uri = match &frame.uri {
                    Some(uri) => uri.as_str(),
                    None => "",
                };
                let title = match &frame.title {
                    Some(title) => Some(title.as_str()),
                    None => None,
                };
                builder.add_document(
                    frame.frame_id,
                    uri,
                    title,
                    frame.content.as_str(),
                    &frame.tags,
                );
                assert(crate::index_laws::shows(builder@[before.len() as int], *frame));
            }
            i = i + 1;
        }
        assert(views.take(i as int) =~= views);
        assert(crate::index_laws::active_places(ks, frames@));
        match builder.finish() {
            Ok(artifact) => {
                let size: usize = artifact.bytes.len();
                proof {
                    assert(size < crate::wire::length_limit());
                    crate::lex::lemma_decoded_documents(documents_for(views), artifact.bytes@);
                }
                self.set_lex(artifact);
                Ok(())
            },
            Err(e) => Err(e),
        }
    }

    /// Sets the vector index.
    pub fn set_vec_bytes(&mut self, bytes: Vec<u8>)
        ensures
            *final(self) == (Mv2xIndex { vec_bytes: Some(bytes), ..*old(self) }),
    {
        self.vec_bytes = Some(bytes);
    }

    /// Sets the knowledge graph. It is serialised when the index is written.
    pub fn set_logic_mesh(&mut self, mesh: M)
        ensures
            *final(self) == (Mv2xIndex { mesh_bytes: None, logic_mesh: Some(mesh), ..*old(self) }),
    {
        self.mesh_bytes = None;
        self.logic_mesh = Some(mesh);
    }

    /// The serialised knowledge graph, as long as it has not been decoded.
    pub fn undecoded_mesh(&self) -> (r: Option<&Vec<u8>>)
        ensures
            match r {
                Some(bytes) => self.logic_mesh is None && self.mesh_bytes == Some(*bytes),
                None => self.logic_mesh is Some || self.mesh_bytes is None,
            },
    {
        match &self.logic_mesh {
            Some(_) => None,
            None => match &self.mesh_bytes {
                Some(bytes) => Some(bytes),
                None => None,
            },
        }
    }

    /// The knowledge graph, where `decoded` is what [`Self::undecoded_mesh`]
    /// decodes to: nothing if it gives no bytes or they are corrupt.
    pub open spec fn mesh_with(&self, decoded: Option<M>) -> Option<M> {
        match self.logic_mesh {
            Some(mesh) => Some(mesh),
            None => if self.mesh_bytes is Some {
                decoded
            } else {
                None
            },
        }
    }

    /// The knowledge graph, decoded from `decoded` if it has not been before.
    pub fn logic_mesh(&mut self, decoded: Option<M>) -> (r: Option<&M>)
        ensures
            *final(self) == (Mv2xIndex {
                logic_mesh: old(self).mesh_with(decoded),
                ..*old(self)
            }),
            match r {
                Some(mesh) => old(self).mesh_with(decoded) == Some(*mesh),
                None => old(self).mesh_with(decoded) is None,
            },
            match r {
                Some(mesh) => old(self).logic_mesh == Some(*mesh) || (old(self).logic_mesh is None
                    && old(self).mesh_bytes is Some && decoded == Some(*mesh)),
                None => old(self).logic_mesh is None && (old(self).mesh_bytes is None
                    || decoded is None),
            },
    {
        if self.logic_mesh.is_none() && self.mesh_bytes.is_some() {
            self.logic_mesh = decoded;
        }
        self.logic_mesh.as_ref()
    }

    /// The knowledge graph for changes, decoded from `decoded` if it has not been
    /// before. It is serialised anew when the index is written.
    pub fn logic_mesh_mut(&mut self, decoded: Option<M>) -> (r: Option<&mut M>)
        ensures
            match r {
                Some(mesh) => old(self).mesh_with(decoded) == Some(*mesh) && *final(self) == (
                Mv2xIndex {
                    mesh_bytes: None,
                    logic_mesh: Some(*final(mesh)),
                    ..*old(self)
                }),
                None => old(self).mesh_with(decoded) is None && *final(self) == *old(self),
            },
            match r {
                Some(mesh) => old(self).logic_mesh == Some(*mesh) || (old(self).logic_mesh is None
                    && old(self).mesh_bytes is Some && decoded == Some(*mesh)),
                None => old(self).logic_mesh is None && (old(self).mesh_bytes is None
                    || decoded is None),
            },
    {
        if self.logic_mesh.is_none() && self.mesh_bytes.is_some() {
            self.logic_mesh = decoded;
        }
        if self.logic_mesh.is_some() {
            self.mesh_bytes = None;
        }
        self.logic_mesh.as_mut()
    }
}

/// The documents that a search looks at are those of the decoded index or, if it
/// has not been decoded, those whose encoding the stored bytes start with. Without
/// stored bytes, or with bytes that start with no encoding, there are none.
pub proof fn searched_documents_are_the_stored<M>(
    index: Mv2xIndex<M>,
    documents: Seq<DocumentView>,
)
    ensures
        index.lex_index matches Some(decoded) ==> index.lex_documents() == Some(
            crate::lex::documents_of(decoded.documents@),
        ),
        index.lex_index is None && index.lex_bytes is None ==> index.lex_documents() is None,
        index.lex_index is None && index.lex_bytes is Some && index.lex_bytes->0@.len()
            < crate::wire::length_limit() && crate::wire::wire_documents(documents).is_prefix_of(
            index.lex_bytes->0@,
        ) ==> index.lex_documents() == Some(documents),
        index.lex_index is None && index.lex_bytes is Some && (forall|d: Seq<DocumentView>|
            !(#[trigger] crate::wire::wire_documents(d)).is_prefix_of(index.lex_bytes->0@))
            ==> index.lex_documents() is None,
{
    if index.lex_index is None && index.lex_bytes is Some && index.lex_bytes->0@.len()
        < crate::wire::length_limit() && crate::wire::wire_documents(documents).is_prefix_of(
        index.lex_bytes->0@,
    ) {
        crate::lex::lemma_decoded_documents(documents, index.lex_bytes->0@);
    }
}

} // verus!
