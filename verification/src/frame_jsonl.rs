//! Frames, as each line of a `.mv2d` file holds one.

use crate::tags::TagMap;
use vstd::prelude::*;

verus! {

/// Frame lifecycle status.
#[derive(Debug, Clone, Copy, PartialEq, Eq, Structural)]
pub enum FrameStatus {
    Active,
    Tombstoned,
}

/// A single frame: one line of a `.mv2d` file.
#[derive(Debug)]
pub struct FrameJsonl {
    /// Monotonically increasing ID, unique per file.
    pub frame_id: u64,
    /// Hierarchical URI (`mv2://path/to/content`).
    pub uri: Option<String>,
    /// Human-readable title.
    pub title: Option<String>,
    /// Unix timestamp in seconds.
    pub created_at: i64,
    /// Frame status.
    pub status: FrameStatus,
    /// The older frame that this one takes the place of.
    pub supersedes: Option<u64>,
    /// Free-form key-value tags.
    pub tags: TagMap,
    /// Plaintext content.
    pub content: String,
}

/// A frame with its text as characters.
#[verifier::ext_equal]
pub struct FrameView {
    pub frame_id: u64,
    pub uri: Option<Seq<char>>,
    pub title: Option<Seq<char>>,
    pub created_at: i64,
    pub status: FrameStatus,
    pub supersedes: Option<u64>,
    pub tags: Seq<(Seq<char>, Seq<char>)>,
    pub content: Seq<char>,
}

impl FrameView {
    /// The frame under another ID.
    pub open spec fn with_id(self, frame_id: u64) -> FrameView {
        FrameView { frame_id, ..self }
    }

    /// A frame with content and nothing else.
    pub open spec fn plain(frame_id: u64, content: Seq<char>, created_at: i64) -> FrameView {
        FrameView {
            frame_id,
            uri: None,
            title: None,
            created_at,
            status: FrameStatus::Active,
            supersedes: None,
            tags: Seq::empty(),
            content,
        }
    }

    /// A frame that marks `target` as deleted.
    pub open spec fn tombstone(frame_id: u64, target: u64, created_at: i64) -> FrameView {
        FrameView {
            frame_id,
            uri: None,
            title: None,
            created_at,
            status: FrameStatus::Tombstoned,
            supersedes: Some(target),
            tags: Seq::empty(),
            content: Seq::empty(),
        }
    }
}

impl View for FrameJsonl {
    type V = FrameView;

    open spec fn view(&self) -> FrameView {
        FrameView {
            frame_id: self.frame_id,
            uri: crate::codec::text_of(self.uri),
            title: crate::codec::text_of(self.title),
            created_at: self.created_at,
            status: self.status,
            supersedes: self.supersedes,
            tags: self.tags.pairs(),
            content: self.content@,
        }
    }
}

/// A copy of an optional text.
pub(crate) fn copy_text(o: &Option<String>) -> (r: Option<String>)
    ensures
        crate::codec::text_of(r) == crate::codec::text_of(*o),
        crate::index_laws::same_text(r, *o),
{
    match o {
        Some(s) => Some(s.clone()),
        None => None,
    }
}

impl Clone for FrameJsonl {
    fn clone(&self) -> (r: Self)
        ensures
            r@ == self@,
            crate::index_laws::same_frame(r, *self),
    {
        FrameJsonl {
            frame_id: self.frame_id,
            uri: copy_text(&self.uri),
            title: copy_text(&self.title),
            created_at: self.created_at,
            status: self.status,
            supersedes: self.supersedes,
            tags: self.tags.clone(),
            content: self.content.clone(),
        }
    }
}

impl FrameJsonl {
    /// Creates an active frame, dated now.
    pub fn new(frame_id: u64, content: &str) -> (r: Self)
        ensures
            r@ == FrameView::plain(frame_id, content@, r.created_at),
            crate::index_laws::is_plain(r, frame_id, content@),
            is_clock_time(r.created_at),
    {
        FrameJsonl::new_at(frame_id, content, now_unix())
    }

    /// Creates an active frame, dated `created_at`.
    pub fn new_at(frame_id: u64, content: &str, created_at: i64) -> (r: Self)
        ensures
            r@ == FrameView::plain(frame_id, content@, created_at),
            crate::index_laws::is_plain(r, frame_id, content@),
            r.created_at == created_at,
    {
        FrameJsonl {
            frame_id,
            uri: None,
            title: None,
            created_at,
            status: FrameStatus::Active,
            supersedes: None,
            tags: TagMap::new(),
            content: content.to_owned(),
        }
    }

    /// Sets the URI.
    pub fn with_uri(self, uri: &str) -> (r: Self)
        ensures
            r@ == (FrameView { uri: Some(uri@), ..self@ }),
            r == (FrameJsonl { uri: r.uri, ..self }),
            r.uri is Some,
            r.uri->0@ == uri@,
    {
        let mut frame = self;
        frame.uri = Some(uri.to_owned());
        frame
    }

    /// Sets the title.
    pub fn with_title(self, title: &str) -> (r: Self)
        ensures
            r@ == (FrameView { title: Some(title@), ..self@ }),
            r == (FrameJsonl { title: r.title, ..self }),
            r.title is Some,
            r.title->0@ == title@,
    {
        let mut frame = self;
        frame.title = Some(title.to_owned());
        frame
    }

    /// Adds a tag, or sets one that is there.
    pub fn with_tag(self, key: &str, value: &str) -> (r: Self)
        ensures
            r@ == (FrameView { tags: r.tags.pairs(), ..self@ }),
            r == (FrameJsonl { tags: r.tags, ..self }),
            crate::tags::is_set(r.tags.entries@, self.tags.entries@, key@, value@),
            r.tags@ == self.tags@.insert(key@, value@),
            crate::tags::unique_keys(self.tags.pairs()) ==> crate::tags::unique_keys(
                r.tags.pairs(),
            ),
    {
        let mut frame = self;
        frame.tags.insert(key, value);
        frame
    }

    /// Marks this frame as taking the place of another.
    pub fn with_supersedes(self, old_frame_id: u64) -> (r: Self)
        ensures
            r@ == (FrameView { supersedes: Some(old_frame_id), ..self@ }),
            r == (FrameJsonl { supersedes: Some(old_frame_id), ..self }),
    {
        let mut frame = self;
        frame.supersedes = Some(old_frame_id);
        frame
    }

    /// Creates a frame, dated now, that marks `target_frame_id` as deleted.
    pub fn tombstone(frame_id: u64, target_frame_id: u64) -> (r: Self)
        ensures
            r@ == FrameView::tombstone(frame_id, target_frame_id, r.created_at),
            crate::index_laws::is_tombstone(r, frame_id, target_frame_id),
            is_clock_time(r.created_at),
    {
        FrameJsonl::tombstone_at(frame_id, target_frame_id, now_unix())
    }

    /// Creates a frame, dated `created_at`, that marks `target_frame_id` as
    /// deleted.
    pub fn tombstone_at(frame_id: u64, target_frame_id: u64, created_at: i64) -> (r: Self)
        ensures
            r@ == FrameView::tombstone(frame_id, target_frame_id, created_at),
            crate::index_laws::is_tombstone(r, frame_id, target_frame_id),
            r.created_at == created_at,
    {
        FrameJsonl {
            frame_id,
            uri: None,
            title: None,
            created_at,
            status: FrameStatus::Tombstoned,
            supersedes: Some(target_frame_id),
            tags: TagMap::new(),
            content: String::new(),
        }
    }

    /// Whether this frame is active: it is no tombstone.
    pub fn is_active(&self) -> (r: bool)
        ensures
            r == (self.status == FrameStatus::Active),
    {
        self.status == FrameStatus::Active
    }
}

/// `std::time::SystemTime`. Nothing is claimed of what it shows.
#[verifier::external_type_specification]
#[verifier::external_body]
pub struct ExSystemTime(std::time::SystemTime);

/// `std::time::SystemTimeError`. Nothing is claimed of what it says.
#[verifier::external_type_specification]
#[verifier::external_body]
pub struct ExSystemTimeError(std::time::SystemTimeError);

/// `std::time::SystemTime::now`: the clock of the machine. Nothing is claimed of
/// what it shows.
pub assume_specification[ std::time::SystemTime::now ]() -> (r: std::time::SystemTime)
;

/// Calls `std::time::SystemTime::duration_since` for the Unix epoch: the time
/// from the epoch to `t`, or an error if `t` comes before it. Nothing is claimed
/// of the points of the clock.
#[verifier::external_body]
pub(crate) fn since_epoch(t: &std::time::SystemTime) -> (r: Result<
    std::time::Duration,
    std::time::SystemTimeError,
>) {
    t.duration_since(std::time::UNIX_EPOCH)
}

/// `std::time::Duration::as_secs`: the whole seconds of a duration. Nothing is
/// claimed of them.
pub assume_specification[ std::time::Duration::as_secs ](d: &std::time::Duration) -> (r: u64)
;

/// The Unix timestamp of a clock reading: the seconds since the epoch, or zero
/// if the clock stands before it.
pub fn unix_seconds(since_epoch: Option<u64>) -> (r: i64)
    ensures
        r == match since_epoch {
            Some(s) => crate::codec::signed_value(s),
            None => 0,
        },
        match since_epoch {
            Some(s) => if s <= i64::MAX {
                r == s
            } else {
                r == s - 0x1_0000_0000_0000_0000
            },
            None => r == 0,
        },
{
    match since_epoch {
        Some(s) => crate::codec::signed(s),
        None => 0,
    }
}

/// Whether `seconds` is what the clock of the machine shows when it is read: the
/// whole seconds from the epoch to then, or zero if then is before the epoch.
pub closed spec fn is_clock_time(seconds: i64) -> bool {
    exists|
        t: std::time::SystemTime,
        since: Result<std::time::Duration, std::time::SystemTimeError>,
    |
        #[trigger] call_ensures(std::time::SystemTime::now, (), t) && #[trigger] call_ensures(
            since_epoch,
            (&t,),
            since,
        ) && match since {
            Ok(d) => exists|s: u64| #[trigger]
                call_ensures(std::time::Duration::as_secs, (&d,), s) && seconds
                    == crate::codec::signed_value(s),
            Err(_) => seconds == 0,
        }
}

/// A time of the clock comes from reading it: from a point that
/// `SystemTime::now` gave, and from the seconds from the epoch to that point, with
/// their bits kept. It is zero for a point before the epoch.
pub(crate) proof fn clock_times_are_read(seconds: i64)
    requires
        is_clock_time(seconds),
    ensures
        exists|
            t: std::time::SystemTime,
            since: Result<std::time::Duration, std::time::SystemTimeError>,
        |
            #[trigger] call_ensures(std::time::SystemTime::now, (), t) && #[trigger] call_ensures(
                since_epoch,
                (&t,),
                since,
            ) && match since {
                Ok(d) => exists|s: u64| #[trigger]
                    call_ensures(std::time::Duration::as_secs, (&d,), s) && seconds == if s
                        <= i64::MAX {
                        s as int
                    } else {
                        s - 0x1_0000_0000_0000_0000
                    },
                Err(_) => seconds == 0,
            },
{
}

/// The current Unix timestamp.
fn now_unix() -> (r: i64)
    ensures
        is_clock_time(r),
{
    let t = std::time::SystemTime::now();
    let since = since_epoch(&t);
    assert(call_ensures(since_epoch, (&t,), since));
    match since {
        Ok(d) => {
            let s = d.as_secs();
            assert(call_ensures(std::time::Duration::as_secs, (&d,), s));
            unix_seconds(Some(s))
        },
        Err(_) => unix_seconds(None),
    }
}

} // verus!
