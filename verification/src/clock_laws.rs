//! Where the time of a new frame comes from.
//!
//! Nothing here runs.

use crate::frame_jsonl::FrameJsonl;
use crate::node::JsTags;
use crate::split_memvid::SplitMemvid;
use vstd::prelude::*;

verus! {

/// Whether `seconds` was read from the clock: `SystemTime::now` gave a point, and
/// `seconds` has the bits of the whole seconds from the epoch to that point or, if
/// the point is before the epoch, is zero.
pub(crate) open spec fn read_from_clock(seconds: i64) -> bool {
    exists|
        t: std::time::SystemTime,
        since: Result<std::time::Duration, std::time::SystemTimeError>,
    |
        #[trigger] call_ensures(std::time::SystemTime::now, (), t) && #[trigger] call_ensures(
            crate::frame_jsonl::since_epoch,
            (&t,),
            since,
        ) && match since {
            Ok(d) => exists|s: u64| #[trigger]
                call_ensures(std::time::Duration::as_secs, (&d,), s) && (seconds == s || seconds
                    == s - 0x1_0000_0000_0000_0000),
            Err(_) => seconds == 0,
        }
}

/// A frame that is put is dated with a reading of the clock.
pub(crate) proof fn put_is_dated_by_the_clock<M>(
    store: SplitMemvid<M>,
    content: &str,
    r: FrameJsonl,
)
    requires
        call_ensures(SplitMemvid::<M>::put, (&store, content), r),
    ensures
        read_from_clock(r.created_at),
{
    crate::frame_jsonl::clock_times_are_read(r.created_at);
}

/// A tombstone is dated with a reading of the clock.
pub(crate) proof fn delete_is_dated_by_the_clock<M>(
    store: SplitMemvid<M>,
    target_frame_id: u64,
    r: FrameJsonl,
)
    requires
        call_ensures(SplitMemvid::<M>::delete, (&store, target_frame_id), r),
    ensures
        read_from_clock(r.created_at),
{
    crate::frame_jsonl::clock_times_are_read(r.created_at);
}

/// A new version of a frame is dated with a reading of the clock.
pub(crate) proof fn update_is_dated_by_the_clock<M>(
    store: SplitMemvid<M>,
    old_frame_id: u64,
    new_content: &str,
    r: FrameJsonl,
)
    requires
        call_ensures(SplitMemvid::<M>::update, (&store, old_frame_id, new_content), r),
    ensures
        read_from_clock(r.created_at),
{
    crate::frame_jsonl::clock_times_are_read(r.created_at);
}

/// A new frame is dated with a reading of the clock.
pub(crate) proof fn new_frame_is_dated_by_the_clock(frame_id: u64, content: &str, r: FrameJsonl)
    requires
        call_ensures(FrameJsonl::new, (frame_id, content), r),
    ensures
        read_from_clock(r.created_at),
{
    crate::frame_jsonl::clock_times_are_read(r.created_at);
}

/// A new tombstone is dated with a reading of the clock.
pub(crate) proof fn new_tombstone_is_dated_by_the_clock(
    frame_id: u64,
    target_frame_id: u64,
    r: FrameJsonl,
)
    requires
        call_ensures(FrameJsonl::tombstone, (frame_id, target_frame_id), r),
    ensures
        read_from_clock(r.created_at),
{
    crate::frame_jsonl::clock_times_are_read(r.created_at);
}

/// A frame from JavaScript is dated with a reading of the clock.
pub(crate) proof fn js_frame_is_dated_by_the_clock(
    content: &str,
    uri: Option<&str>,
    title: Option<&str>,
    tags: Option<JsTags>,
    r: FrameJsonl,
)
    requires
        call_ensures(crate::node::frame_from_js, (content, uri, title, &tags), r),
    ensures
        read_from_clock(r.created_at),
{
    crate::frame_jsonl::clock_times_are_read(r.created_at);
}

} // verus!
