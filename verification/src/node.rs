//! What the Node.js binding takes from JavaScript and hands to it.
//!
//! JavaScript sees every ID and count as a signed number with the same bits.

use crate::frame_jsonl::{FrameJsonl, FrameStatus, FrameView};
use crate::lex::LexSearchHit;
use crate::split_memvid::CompactResult;
use crate::tags::TagMap;
use vstd::prelude::*;

verus! {

/// A frame as JavaScript sees it.
#[derive(Debug)]
pub struct JsFrame {
    pub frame_id: i64,
    pub uri: Option<String>,
    pub title: Option<String>,
    pub created_at: i64,
    /// `active` or `tombstoned`.
    pub status: String,
    pub supersedes: Option<i64>,
    pub tags: TagMap,
    pub content: String,
}

/// A [`JsFrame`] with its text as characters.
#[verifier::ext_equal]
pub struct JsFrameView {
    pub frame_id: i64,
    pub uri: Option<Seq<char>>,
    pub title: Option<Seq<char>>,
    pub created_at: i64,
    pub status: Seq<char>,
    pub supersedes: Option<i64>,
    pub tags: Seq<(Seq<char>, Seq<char>)>,
    pub content: Seq<char>,
}

impl View for JsFrame {
    type V = JsFrameView;

    open spec fn view(&self) -> JsFrameView {
        JsFrameView {
            frame_id: self.frame_id,
            uri: crate::codec::text_of(self.uri),
            title: crate::codec::text_of(self.title),
            created_at: self.created_at,
            status: self.status@,
            supersedes: self.supersedes,
            tags: self.tags.pairs(),
            content: self.content@,
        }
    }
}

/// The name of a status.
pub open spec fn status_name(status: FrameStatus) -> Seq<char> {
    match status {
        FrameStatus::Active => "active"@,
        FrameStatus::Tombstoned => "tombstoned"@,
    }
}

/// What JavaScript sees of a frame.
pub open spec fn js_frame(frame: FrameView) -> JsFrameView {
    JsFrameView {
        frame_id: crate::codec::signed_value(frame.frame_id) as i64,
        uri: frame.uri,
        title: frame.title,
        created_at: frame.created_at,
        status: status_name(frame.status),
        supersedes: match frame.supersedes {
            Some(id) => Some(crate::codec::signed_value(id) as i64),
            None => None,
        },
        tags: frame.tags,
        content: frame.content,
    }
}

/// Whether a signed number has the bits of an unsigned one.
pub open spec fn same_bits(signed: i64, unsigned: u64) -> bool {
    signed == unsigned || signed == unsigned - 0x1_0000_0000_0000_0000
}

impl From<FrameJsonl> for JsFrame {
    fn from(f: FrameJsonl) -> (r: Self)
        ensures
            r@ == js_frame(f@),
            same_bits(r.frame_id, f.frame_id),
            r.uri == f.uri,
            r.title == f.title,
            r.created_at == f.created_at,
            r.status@ == match f.status {
                FrameStatus::Active => "active"@,
                FrameStatus::Tombstoned => "tombstoned"@,
            },
            match (r.supersedes, f.supersedes) {
                (Some(a), Some(b)) => same_bits(a, b),
                (None, None) => true,
                _ => false,
            },
            r.tags == f.tags,
            r.content == f.content,
    {
        let supersedes = match f.supersedes {
            Some(id) => Some(crate::codec::signed(id)),
            None => None,
        };
        let status = match f.status {
            FrameStatus::Active => "active",
            FrameStatus::Tombstoned => "tombstoned",
        };
        JsFrame {
            frame_id: crate::codec::signed(f.frame_id),
            uri: f.uri,
            title: f.title,
            created_at: f.created_at,
            status: status.to_owned(),
            supersedes,
            tags: f.tags,
            content: f.content,
        }
    }
}

impl vstd::std_specs::convert::FromSpecImpl<FrameJsonl> for JsFrame {
    open spec fn obeys_from_spec() -> bool {
        false
    }

    open spec fn from_spec(v: FrameJsonl) -> Self {
        arbitrary()
    }
}

/// Result of a compaction as JavaScript sees it.
#[derive(Debug, Clone, Copy, PartialEq, Eq, Structural)]
pub struct JsCompactResult {
    pub original_frames: i64,
    pub active_frames: i64,
    pub removed_frames: i64,
}

/// What JavaScript sees of the result of a compaction.
pub fn js_compact_result(result: CompactResult) -> (r: JsCompactResult)
    ensures
        r.original_frames == crate::codec::signed_value(result.original_frames),
        r.active_frames == crate::codec::signed_value(result.active_frames),
        r.removed_frames == crate::codec::signed_value(result.removed_frames),
        same_bits(r.original_frames, result.original_frames),
        same_bits(r.active_frames, result.active_frames),
        same_bits(r.removed_frames, result.removed_frames),
{
    JsCompactResult {
        original_frames: crate::codec::signed(result.original_frames),
        active_frames: crate::codec::signed(result.active_frames),
        removed_frames: crate::codec::signed(result.removed_frames),
    }
}

/// A hit of a full-text search as JavaScript sees it, but for its score, which is
/// still a whole number.
#[derive(Debug, Clone, Copy, PartialEq, Eq, Structural)]
pub struct JsLexHit {
    pub frame_id: i64,
    pub score: u64,
    pub match_count: i64,
}

/// What JavaScript sees of a hit.
pub open spec fn js_lex_hit(hit: LexSearchHit) -> JsLexHit {
    JsLexHit {
        frame_id: crate::codec::signed_value(hit.frame_id) as i64,
        score: hit.score as u64,
        match_count: crate::codec::signed_value(hit.match_count as u64) as i64,
    }
}

/// What JavaScript sees of the hits of a full-text search.
pub fn js_lex_hits(hits: &[LexSearchHit]) -> (r: Vec<JsLexHit>)
    ensures
        r@ == hits@.map_values(|h: LexSearchHit| js_lex_hit(h)),
        r@.len() == hits@.len(),
        forall|k: int|
            0 <= k < hits@.len() ==> same_bits((#[trigger] r@[k]).frame_id, hits@[k].frame_id)
                && r@[k].score == hits@[k].score && same_bits(
                r@[k].match_count,
                hits@[k].match_count as u64,
            ),
{
    let mut shown: Vec<JsLexHit> = Vec::new();
    let mut i: usize = 0;
    while i < hits.len()
        invariant
            i <= hits@.len(),
            shown@.len() == i,
            forall|k: int| 0 <= k < i ==> #[trigger] shown@[k] == js_lex_hit(hits@[k]),
        decreases hits@.len() - i,
    {
        let hit = hits[i];
        shown.push(
            JsLexHit {
                frame_id: crate::codec::signed(hit.frame_id),
                score: hit.score as u64,
                match_count: crate::codec::signed(hit.match_count as u64),
            },
        );
        i = i + 1;
    }
    assert(shown@ =~= hits@.map_values(|h: LexSearchHit| js_lex_hit(h)));
    shown
}

/// The limit of a search, from what JavaScript gives. A negative one is a very
/// high one.
pub fn search_limit(limit: i64) -> (r: usize)
    ensures
        r == limit as usize,
        0 <= limit <= usize::MAX ==> r == limit,
        limit < 0 && usize::BITS == 64 ==> r == limit + 0x1_0000_0000_0000_0000,
{
    assert(limit < 0 && usize::BITS == 64 ==> (limit as usize) == limit
        + 0x1_0000_0000_0000_0000) by (bit_vector);
    limit as usize
}

/// The value of a tag that JavaScript gives.
#[derive(Debug)]
pub enum JsTag {
    Text(String),
    /// A number, an array or anything else.
    Other,
}

/// The tags that JavaScript gives.
#[derive(Debug)]
pub enum JsTags {
    Object(Vec<(String, JsTag)>),
    /// Anything that is not an object.
    Other,
}

/// The tags that a frame gets from the properties of an object: those whose value
/// is a text. Of two with one key the later counts.
pub open spec fn text_tags(properties: Seq<(String, JsTag)>) -> Map<Seq<char>, Seq<char>>
    decreases properties.len(),
{
    if properties.len() == 0 {
        Map::empty()
    } else {
        let before = text_tags(properties.drop_last());
        match properties.last().1 {
            JsTag::Text(value) => before.insert(properties.last().0@, value@),
            JsTag::Other => before,
        }
    }
}

/// Whether the property at `p` is the last one with this key and a text, and that
/// is its text.
pub open spec fn is_last_text(
    properties: Seq<(String, JsTag)>,
    p: int,
    key: Seq<char>,
    value: Seq<char>,
) -> bool {
    &&& 0 <= p < properties.len()
    &&& properties[p].0@ == key
    &&& match properties[p].1 {
        JsTag::Text(text) => text@ == value,
        JsTag::Other => false,
    }
    &&& forall|q: int|
        p < q < properties.len() && (#[trigger] properties[q]).0@ == key
            ==> properties[q].1 is Other
}

/// A key is among the tags exactly when some property, at any place, has that key
/// and a text. Its value is the text of the last such property.
pub proof fn text_properties_become_tags(properties: Seq<(String, JsTag)>, key: Seq<char>)
    ensures
        text_tags(properties).contains_key(key) <==> exists|p: int|
            0 <= p < properties.len() && (#[trigger] properties[p]).0@ == key && properties[p].1
                is Text,
        text_tags(properties).contains_key(key) ==> exists|p: int| #[trigger]
            is_last_text(properties, p, key, text_tags(properties)[key]),
    decreases properties.len(),
{
    if properties.len() > 0 {
        let front = properties.drop_last();
        let n = properties.len() - 1;
        text_properties_become_tags(front, key);
        if properties[n].0@ == key && properties[n].1 is Text {
            assert(is_last_text(properties, n, key, text_tags(properties)[key]));
        } else {
            if text_tags(front).contains_key(key) {
                let value = text_tags(front)[key];
                let p = choose|p: int| #[trigger] is_last_text(front, p, key, value);
                assert(properties[p] == front[p]);
                assert forall|q: int|
                    p < q < properties.len() && (#[trigger] properties[q]).0@
                        == key implies properties[q].1 is Other by {
                    if q < n {
                        assert(front[q] == properties[q]);
                    }
                }
                assert(is_last_text(properties, p, key, value));
            }
            if exists|p: int|
                0 <= p < properties.len() && (#[trigger] properties[p]).0@ == key
                    && properties[p].1 is Text {
                let p = choose|p: int|
                    0 <= p < properties.len() && (#[trigger] properties[p]).0@ == key
                        && properties[p].1 is Text;
                assert(front[p] == properties[p]);
            }
        }
    }
}

/// Whether some property is the last one with this key and a text, and that is its
/// text.
pub open spec fn is_text_of(
    value: Seq<char>,
    key: Seq<char>,
    properties: Seq<(String, JsTag)>,
) -> bool {
    exists|p: int| #[trigger] is_last_text(properties, p, key, value)
}

/// Whether a list of tags has exactly the keys of the properties with a text, each
/// once and with the last of its texts.
pub open spec fn has_the_texts(
    entries: Seq<(String, String)>,
    properties: Seq<(String, JsTag)>,
) -> bool {
    &&& forall|i: int, j: int|
        0 <= i < j < entries.len() ==> (#[trigger] entries[i]).0@ != (#[trigger] entries[j]).0@
    &&& forall|i: int|
        0 <= i < entries.len() ==> is_text_of(
            entries[i].1@,
            (#[trigger] entries[i]).0@,
            properties,
        )
    &&& forall|p: int|
        0 <= p < properties.len() && (#[trigger] properties[p]).1 is Text ==> exists|i: int|
            0 <= i < entries.len() && (#[trigger] entries[i]).0@ == properties[p].0@
}

proof fn lemma_has_the_texts(tags: TagMap, properties: Seq<(String, JsTag)>)
    requires
        tags@ == text_tags(properties),
        crate::tags::unique_keys(tags.pairs()),
    ensures
        has_the_texts(tags.entries@, properties),
{
    let entries = tags.entries@;
    let pairs = tags.pairs();
    assert forall|i: int, j: int| 0 <= i < j < entries.len() implies (#[trigger] entries[i]).0@
        != (#[trigger] entries[j]).0@ by {
        assert(pairs[i].0 != pairs[j].0);
    }
    assert forall|i: int| 0 <= i < entries.len() implies is_text_of(
        entries[i].1@,
        (#[trigger] entries[i]).0@,
        properties,
    ) by {
        let key = entries[i].0@;
        assert(pairs[i] == (key, entries[i].1@));
        crate::tags::map_is_the_first_entries(pairs, key);
        assert forall|j: int| 0 <= j < i implies (#[trigger] pairs[j]).0 != key by {
            assert(pairs[j].0 != pairs[i].0);
        }
        text_properties_become_tags(properties, key);
    }
    assert forall|p: int|
        0 <= p < properties.len() && (#[trigger] properties[p]).1 is Text implies exists|i: int|
        0 <= i < entries.len() && (#[trigger] entries[i]).0@ == properties[p].0@ by {
        let key = properties[p].0@;
        text_properties_become_tags(properties, key);
        crate::tags::map_is_the_first_entries(pairs, key);
        let i = choose|i: int| 0 <= i < pairs.len() && (#[trigger] pairs[i]).0 == key;
        assert(entries[i].0@ == key);
    }
}

/// The tags that a frame gets.
pub open spec fn tags_from(tags: Option<JsTags>) -> Map<Seq<char>, Seq<char>> {
    match tags {
        Some(JsTags::Object(properties)) => text_tags(properties@),
        _ => Map::empty(),
    }
}

/// Makes a frame from what JavaScript gives. Its ID is set when it is put.
pub fn frame_from_js(
    content: &str,
    uri: Option<&str>,
    title: Option<&str>,
    tags: &Option<JsTags>,
) -> (r: FrameJsonl)
    ensures
        r@ == (FrameView {
            uri: match uri {
                Some(u) => Some(u@),
                None => None,
            },
            title: match title {
                Some(t) => Some(t@),
                None => None,
            },
            tags: r.tags.pairs(),
            ..FrameView::plain(0, content@, r.created_at)
        }),
        r.tags@ == tags_from(*tags),
        crate::tags::unique_keys(r.tags.pairs()),
        r.frame_id == 0,
        r.content@ == content@,
        match (r.uri, uri) {
            (Some(a), Some(b)) => a@ == b@,
            (None, None) => true,
            _ => false,
        },
        match (r.title, title) {
            (Some(a), Some(b)) => a@ == b@,
            (None, None) => true,
            _ => false,
        },
        r.status == FrameStatus::Active,
        r.supersedes is None,
        crate::frame_jsonl::is_clock_time(r.created_at),
        match *tags {
            Some(JsTags::Object(properties)) => has_the_texts(r.tags.entries@, properties@),
            _ => r.tags.entries@.len() == 0,
        },
{
    let mut frame = FrameJsonl::new(0, content);
    if let Some(u) = uri {
        frame = frame.with_uri(u);
    }
    if let Some(t) = title {
        frame = frame.with_title(t);
    }
    proof {
        assert(frame.tags.pairs() == Seq::<(Seq<char>, Seq<char>)>::empty());
        assert(frame.tags@ == Map::<Seq<char>, Seq<char>>::empty());
    }
    if let Some(JsTags::Object(properties)) = tags {
        let ghost start = frame@;
        let ghost first = frame;
        let mut i: usize = 0;
        assert(properties@.take(0) =~= Seq::empty());
        while i < properties.len()
            invariant
                i <= properties@.len(),
                frame@ == (FrameView { tags: frame.tags.pairs(), ..start }),
                frame == (FrameJsonl { tags: frame.tags, ..first }),
                frame.tags@ == text_tags(properties@.take(i as int)),
                crate::tags::unique_keys(frame.tags.pairs()),
            decreases properties@.len() - i,
        {
            let (key, value) = &properties[i];
            assert(properties@.take(i + 1).drop_last() =~= properties@.take(i as int));
            if let JsTag::Text(text) = value {
                frame = frame.with_tag(key.as_str(), text.as_str());
            }
            i = i + 1;
        }
        assert(properties@.take(i as int) =~= properties@);
        proof {
            lemma_has_the_texts(frame.tags, properties@);
        }
    }
    frame
}

/// An ID that JavaScript was given names the same frame when it comes back.
pub proof fn ids_come_back(frame_id: u64)
    ensures
        crate::codec::unsigned_value(crate::codec::signed_value(frame_id) as i64) == frame_id,
{
}

} // verus!
