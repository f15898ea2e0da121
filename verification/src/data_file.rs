//! Line framing of `.mv2d` files.
//!
//! A `.mv2d` file holds one frame per line. This module finds the lines of such
//! a file and where they start, finds the last line from the end of the file,
//! and makes the bytes that are appended for a frame.

use vstd::prelude::*;

verus! {

/// Bytes that are read in one go when the end of a file is searched.
pub const CHUNK: u64 = 8192;

/// Why the lines of a data file could not be read.
#[derive(Debug, Clone, Copy, PartialEq, Eq, Structural)]
pub enum DataError {
    /// The line at this byte offset is not UTF-8.
    NotUtf8 { offset: u64 },
}

/// A line that holds a frame, and the byte offset at which it starts.
#[derive(Debug)]
pub struct DataLine {
    pub offset: u64,
    pub text: String,
}

impl DataLine {
    pub open spec fn view(&self) -> (u64, Seq<char>) {
        (self.offset, self.text@)
    }
}

/// `std::str::Utf8Error`. Nothing is claimed of what it says.
#[verifier::external_type_specification]
#[verifier::external_body]
pub struct ExUtf8Error(std::str::Utf8Error);

/// `std::str::from_utf8`: the text whose UTF-8 encoding is `v`, or an error if
/// `v` is not UTF-8.
pub assume_specification[ std::str::from_utf8 ](v: &[u8]) -> (r: Result<
    &str,
    std::str::Utf8Error,
>)
    ensures
        match r {
            Ok(s) => vstd::utf8::encode_utf8(s@) == v@,
            Err(_) => !vstd::utf8::valid_utf8(v@),
        },
;

/// Whether `c` has the Unicode property White_Space.
pub open spec fn is_white_space(c: char) -> bool {
    ||| 0x9 <= c as u32 <= 0xd
    ||| c as u32 == 0x20
    ||| c as u32 == 0x85
    ||| c as u32 == 0xa0
    ||| c as u32 == 0x1680
    ||| 0x2000 <= c as u32 <= 0x200a
    ||| 0x2028 <= c as u32 <= 0x2029
    ||| c as u32 == 0x202f
    ||| c as u32 == 0x205f
    ||| c as u32 == 0x3000
}

pub open spec fn trim_start(s: Seq<char>) -> Seq<char>
    decreases s.len(),
{
    if s.len() > 0 && is_white_space(s[0]) {
        trim_start(s.drop_first())
    } else {
        s
    }
}

pub open spec fn trim_end(s: Seq<char>) -> Seq<char>
    decreases s.len(),
{
    if s.len() > 0 && is_white_space(s.last()) {
        trim_end(s.drop_last())
    } else {
        s
    }
}

/// `s` without white space at its start and end.
pub open spec fn trimmed(s: Seq<char>) -> Seq<char> {
    trim_end(trim_start(s))
}

/// `str::trim`: the text without leading and trailing white space.
pub assume_specification[ str::trim ](s: &str) -> (r: &str)
    ensures
        r@ == trimmed(s@),
;

/// The place of the first line feed in `s`, or its length if there is none.
pub open spec fn line_feed_at(s: Seq<u8>) -> nat
    decreases s.len(),
{
    if s.len() == 0 || s[0] == 10 {
        0
    } else {
        1 + line_feed_at(s.drop_first())
    }
}

/// `s` without a carriage return at its end.
pub open spec fn without_cr(s: Seq<u8>) -> Seq<u8> {
    if s.len() > 0 && s.last() == 13 {
        s.drop_last()
    } else {
        s
    }
}

/// The text of the first line of `s`: what stands before its line feed, or
/// before a carriage return and line feed.
pub open spec fn first_line(s: Seq<u8>) -> Seq<u8> {
    let n = line_feed_at(s) as int;
    if n < s.len() {
        without_cr(s.take(n))
    } else {
        s
    }
}

/// What follows the first line of `s` and its line feed.
pub open spec fn after_first_line(s: Seq<u8>) -> Seq<u8> {
    let n = line_feed_at(s) as int;
    if n < s.len() {
        s.skip(n + 1)
    } else {
        Seq::empty()
    }
}

/// The lines of `s` that are not empty, each with the byte offset of its start,
/// where `s` itself starts at `offset`.
pub open spec fn lines_from(s: Seq<u8>, offset: nat) -> Seq<(nat, Seq<u8>)>
    decreases s.len(),
    via lines_from_decreases
{
    if s.len() == 0 {
        Seq::empty()
    } else {
        let later = lines_from(after_first_line(s), offset + line_feed_at(s) + 1);
        if first_line(s).len() == 0 {
            later
        } else {
            seq![(offset, first_line(s))] + later
        }
    }
}

#[via_fn]
proof fn lines_from_decreases(s: Seq<u8>, offset: nat) {
    lemma_line_feed_at(s);
}

/// The lines of a data file that are not empty, with their byte offsets.
pub open spec fn data_lines(data: Seq<u8>) -> Seq<(nat, Seq<u8>)> {
    lines_from(data, 0)
}

/// What reading `lines` gives: their offsets and text or, if one of them is not
/// UTF-8, the offset of the first such line.
pub open spec fn texts_of(lines: Seq<(nat, Seq<u8>)>) -> Result<Seq<(u64, Seq<char>)>, DataError>
    decreases lines.len(),
{
    if lines.len() == 0 {
        Ok(Seq::empty())
    } else {
        match texts_of(lines.drop_last()) {
            Ok(texts) => if vstd::utf8::valid_utf8(lines.last().1) {
                Ok(
                    texts.push(
                        (lines.last().0 as u64, vstd::utf8::decode_utf8(lines.last().1)),
                    ),
                )
            } else {
                Err(DataError::NotUtf8 { offset: lines.last().0 as u64 })
            },
            Err(e) => Err(e),
        }
    }
}

pub proof fn lemma_line_feed_at(s: Seq<u8>)
    ensures
        line_feed_at(s) <= s.len(),
        forall|i: int| 0 <= i < line_feed_at(s) ==> #[trigger] s[i] != 10,
        line_feed_at(s) < s.len() ==> s[line_feed_at(s) as int] == 10,
    decreases s.len(),
{
    if s.len() > 0 && s[0] != 10 {
        let rest = s.drop_first();
        lemma_line_feed_at(rest);
        assert forall|i: int| 0 <= i < line_feed_at(s) implies #[trigger] s[i] != 10 by {
            if i > 0 {
                assert(rest[i - 1] != 10);
            }
        }
    }
}

/// The first line feed of `s` is at `n`.
proof fn lemma_line_feed_is(s: Seq<u8>, n: int)
    requires
        0 <= n <= s.len(),
        forall|i: int| 0 <= i < n ==> #[trigger] s[i] != 10,
        n < s.len() ==> s[n] == 10,
    ensures
        line_feed_at(s) == n,
{
    lemma_line_feed_at(s);
    let m = line_feed_at(s) as int;
    if m < n {
        assert(s[m] != 10);
    }
}

/// An error among the first lines is the error of all lines.
proof fn lemma_texts_error_stays(lines: Seq<(nat, Seq<u8>)>, n: int)
    requires
        0 <= n <= lines.len(),
        texts_of(lines.take(n)) is Err,
    ensures
        texts_of(lines) == texts_of(lines.take(n)),
    decreases lines.len() - n,
{
    if n == lines.len() {
        assert(lines.take(n) =~= lines);
    } else {
        assert(lines.take(n + 1).drop_last() =~= lines.take(n));
        lemma_texts_error_stays(lines, n + 1);
    }
}

/// The text of a line, if it is UTF-8.
pub fn line_text(line: &[u8], offset: u64) -> (r: Result<String, DataError>)
    ensures
        match r {
            Ok(text) => vstd::utf8::valid_utf8(line@) && text@ == vstd::utf8::decode_utf8(line@),
            Err(e) => !vstd::utf8::valid_utf8(line@) && e == (DataError::NotUtf8 { offset }),
        },
{
    match std::str::from_utf8(line) {
        Ok(s) => {
            proof {
                vstd::utf8::encode_utf8_valid_utf8(s@);
                vstd::utf8::encode_utf8_decode_utf8(s@);
            }
            Ok(s.to_owned())
        },
        Err(_) => Err(DataError::NotUtf8 { offset }),
    }
}

/// Data lines as offsets and characters.
pub open spec fn line_views(s: Seq<DataLine>) -> Seq<(u64, Seq<char>)> {
    s.map_values(|l: DataLine| l@)
}

/// Reads the lines of a data file, each with the byte offset at which it starts.
/// Empty lines are left out.
pub fn read_all_frames(data: &[u8]) -> (r: Result<Vec<DataLine>, DataError>)
    ensures
        match r {
            Ok(lines) => texts_of(data_lines(data@)) == Ok::<_, DataError>(line_views(lines@)),
            Err(e) => texts_of(data_lines(data@)) == Err::<Seq<(u64, Seq<char>)>, _>(e),
        },
        match r {
            Ok(lines) => crate::data_laws::reads_lines(lines@, data@),
            Err(DataError::NotUtf8 { offset }) => crate::data_laws::fails_at(offset, data@),
        },
{
    let mut lines: Vec<DataLine> = Vec::new();
    let mut pos: usize = 0;
    let size: usize = data.len();
    let ghost all = data_lines(data@);
    let ghost mut done: int = 0;
    proof {
        assert(data@.skip(0) =~= data@);
        assert(all.take(0) =~= Seq::empty());
        assert(all.skip(0) =~= all);
        assert(line_views(lines@) =~= Seq::empty());
    }
    while pos < size
        invariant
            pos <= size,
            size == data@.len(),
            0 <= done <= all.len(),
            all == data_lines(data@),
            all.skip(done) == lines_from(data@.skip(pos as int), pos as nat),
            texts_of(all.take(done)) == Ok::<_, DataError>(line_views(lines@)),
        decreases size - pos,
    {
        let ghost rest = data@.skip(pos as int);
        let mut end: usize = pos;
        while end < size && data[end] != 10
            invariant
                pos <= end <= size,
                size == data@.len(),
                forall|i: int| pos <= i < end ==> data@[i] != 10,
            decreases size - end,
        {
            end = end + 1;
        }
        proof {
            assert forall|i: int| 0 <= i < end - pos implies #[trigger] rest[i] != 10 by {
                assert(data@[pos + i] != 10);
            }
            lemma_line_feed_is(rest, end - pos);
        }
        let stop: usize = if end < size && end > pos && data[end - 1] == 13 {
            end - 1
        } else {
            end
        };
        let next: usize = if end < size {
            end + 1
        } else {
            end
        };
        let line = vstd::slice::slice_subrange(data, pos, stop);
        proof {
            assert(line@ =~= first_line(rest));
            assert(after_first_line(rest) =~= data@.skip(next as int));
            if end == size {
                assert(data@.skip(next as int) =~= Seq::empty());
            }
        }
        if stop > pos {
            let ghost item = (pos as nat, line@);
            proof {
                let later = lines_from(after_first_line(rest), (pos + (end - pos) + 1) as nat);
                assert(all.skip(done) == seq![item] + later);
                assert(all[done] == all.skip(done)[0]);
                assert(all.take(done + 1).drop_last() =~= all.take(done));
                assert(all.take(done + 1).last() == item);
                assert(all.skip(done + 1) =~= all.skip(done).skip(1));
                assert(all.skip(done + 1) =~= later);
            }
            match line_text(line, pos as u64) {
                Ok(text) => {
                    let ghost before = line_views(lines@);
                    let entry = DataLine { offset: pos as u64, text };
                    let ghost shown = entry@;
                    lines.push(entry);
                    proof {
                        assert(line_views(lines@) =~= before.push(shown));
                        done = done + 1;
                    }
                },
                Err(e) => {
                    proof {
                        lemma_texts_error_stays(all, done + 1);
                        crate::data_laws::lemma_reads_lines(data@, Err(e));
                    }
                    return Err(e);
                },
            }
        }
        pos = next;
        proof {
            if end == size {
                assert(lines_from(data@.skip(pos as int), pos as nat) =~= Seq::empty());
                assert(lines_from(after_first_line(rest), (end + 1) as nat) =~= Seq::empty());
            }
        }
    }
    proof {
        assert(data@.skip(pos as int) =~= Seq::empty());
        assert(all.skip(done).len() == 0);
        assert(all.take(done) =~= all);
        crate::data_laws::lemma_reads_lines(data@, Ok(lines@));
    }
    Ok(lines)
}

/// The bytes that are appended to a data file for a frame whose JSON text is
/// `line`.
pub fn write_frame_jsonl(line: &str) -> (r: Vec<u8>)
    ensures
        r@ == vstd::utf8::encode_utf8(line@).push(10),
{
    let mut bytes = vstd::slice::slice_to_vec(line.as_bytes());
    bytes.push(10);
    bytes
}

/// What is read as the frame at the start of `s`: nothing at its end, else its
/// first line without white space around it.
pub open spec fn frame_text_at(s: Seq<u8>, offset: u64) -> Result<Option<Seq<char>>, DataError> {
    let n = line_feed_at(s) as int;
    let line = if n < s.len() {
        s.take(n + 1)
    } else {
        s
    };
    if !vstd::utf8::valid_utf8(line) {
        Err(DataError::NotUtf8 { offset })
    } else if line.len() == 0 {
        Ok(None)
    } else {
        Ok(Some(trimmed(vstd::utf8::decode_utf8(line))))
    }
}

/// The JSON text of the frame that starts at byte `offset`, where `data` is what
/// the file holds from there on, or `None` at the end of the file.
pub fn frame_line(data: &[u8], offset: u64) -> (r: Result<Option<String>, DataError>)
    ensures
        match r {
            Ok(None) => frame_text_at(data@, offset) == Ok::<_, DataError>(None::<Seq<char>>),
            Ok(Some(text)) => frame_text_at(data@, offset) == Ok::<_, DataError>(Some(text@)),
            Err(e) => frame_text_at(data@, offset) == Err::<Option<Seq<char>>, _>(e),
        },
        match r {
            Ok(None) => crate::data_laws::is_first(None, data@),
            Ok(Some(text)) => crate::data_laws::is_first(Some(text@), data@),
            Err(e) => e == (DataError::NotUtf8 { offset }) && crate::data_laws::first_is_not_utf8(
                data@,
            ),
        },
{
    proof {
        crate::data_laws::frame_is_the_first_line(data@, offset);
    }
    let size: usize = data.len();
    let mut end: usize = 0;
    while end < size && data[end] != 10
        invariant
            end <= size,
            size == data@.len(),
            forall|i: int| 0 <= i < end ==> data@[i] != 10,
        decreases size - end,
    {
        end = end + 1;
    }
    proof {
        lemma_line_feed_is(data@, end as int);
    }
    let stop: usize = if end < size {
        end + 1
    } else {
        end
    };
    let line = vstd::slice::slice_subrange(data, 0, stop);
    assert(line@ =~= if end < size {
        data@.take(end + 1)
    } else {
        data@
    });
    match line_text(line, offset) {
        Ok(text) => if stop == 0 {
            Ok(None)
        } else {
            Ok(Some(text.as_str().trim().to_owned()))
        },
        Err(e) => Err(e),
    }
}

/// `s` without the line feeds and carriage returns at its end.
pub open spec fn without_line_ends(s: Seq<u8>) -> Seq<u8>
    decreases s.len(),
{
    if s.len() > 0 && (s.last() == 10 || s.last() == 13) {
        without_line_ends(s.drop_last())
    } else {
        s
    }
}

/// What follows the last line feed of `s`, or `s` itself if it has none.
pub open spec fn after_last_feed(s: Seq<u8>) -> Seq<u8>
    decreases s.len(),
{
    if s.len() == 0 || s.last() == 10 {
        Seq::empty()
    } else {
        after_last_feed(s.drop_last()).push(s.last())
    }
}

/// The last line of a data file, without the line ends behind it. `None` if the
/// file holds nothing but line ends.
pub open spec fn last_line(data: Seq<u8>) -> Option<Seq<u8>> {
    let text = without_line_ends(data);
    if text.len() == 0 {
        None
    } else {
        Some(after_last_feed(text))
    }
}

proof fn lemma_without_line_ends(s: Seq<u8>)
    ensures
        without_line_ends(s).len() <= s.len(),
        without_line_ends(s) == s.take(without_line_ends(s).len() as int),
        without_line_ends(s).len() > 0 ==> without_line_ends(s).last() != 10
            && without_line_ends(s).last() != 13,
    decreases s.len(),
{
    if s.len() > 0 && (s.last() == 10 || s.last() == 13) {
        lemma_without_line_ends(s.drop_last());
        let n = without_line_ends(s).len() as int;
        assert(s.drop_last().take(n) =~= s.take(n));
    } else {
        assert(s.take(s.len() as int) =~= s);
    }
}

/// `s` without its line ends is its first `n` bytes.
proof fn lemma_line_ends_from(s: Seq<u8>, n: int)
    requires
        0 <= n <= s.len(),
        forall|i: int| n <= i < s.len() ==> s[i] == 10 || s[i] == 13,
        n > 0 ==> s[n - 1] != 10 && s[n - 1] != 13,
    ensures
        without_line_ends(s) == s.take(n),
    decreases s.len(),
{
    if n == s.len() {
        assert(s.take(n) =~= s);
    } else {
        lemma_line_ends_from(s.drop_last(), n);
        assert(s.drop_last().take(n) =~= s.take(n));
    }
}

/// What follows the last line feed of `s` starts at `n`.
proof fn lemma_last_feed_before(s: Seq<u8>, n: int)
    requires
        0 <= n <= s.len(),
        forall|i: int| n <= i < s.len() ==> s[i] != 10,
        n > 0 ==> s[n - 1] == 10,
    ensures
        after_last_feed(s) == s.skip(n),
    decreases s.len(),
{
    if n == s.len() {
        assert(s.skip(n) =~= Seq::empty());
    } else {
        lemma_last_feed_before(s.drop_last(), n);
        assert(s.drop_last().skip(n).push(s.last()) =~= s.skip(n));
    }
}

/// A search for the last line of a file that reads the file backwards in pieces,
/// so that a line of any length is found.
///
/// `tail` is what the file holds from byte `pos` on.
#[derive(Debug)]
pub struct TailScan {
    pub pos: u64,
    pub tail: Vec<u8>,
}

/// What is known after another piece of the file was read.
#[derive(Debug)]
pub enum TailStep {
    /// The piece before this one is needed.
    ReadMore,
    /// The file holds nothing but line ends.
    NoLine,
    /// The last line.
    Line(Vec<u8>),
}

/// [`TailStep`], with the line as a sequence.
pub enum TailView {
    ReadMore,
    NoLine,
    Line(Seq<u8>),
}

impl TailStep {
    pub open spec fn view(&self) -> TailView {
        match self {
            TailStep::ReadMore => TailView::ReadMore,
            TailStep::NoLine => TailView::NoLine,
            TailStep::Line(line) => TailView::Line(line@),
        }
    }
}

/// What is known of the last line of a file that holds `tail` from `pos` on.
pub open spec fn tail_step(tail: Seq<u8>, pos: nat) -> TailView {
    match last_line(tail) {
        None => if pos == 0 {
            TailView::NoLine
        } else {
            TailView::ReadMore
        },
        Some(line) => if pos == 0 || line.len() < without_line_ends(tail).len() {
            TailView::Line(line)
        } else {
            TailView::ReadMore
        },
    }
}

impl TailScan {
    /// Starts at the end of a file of this size.
    pub fn new(file_size: u64) -> (r: Self)
        ensures
            r.pos == file_size,
            r.tail@ == Seq::<u8>::empty(),
    {
        TailScan { pos: file_size, tail: Vec::new() }
    }

    /// The offset and length of the piece to read next, if there is one.
    pub fn next_read(&self) -> (r: Option<(u64, u64)>)
        ensures
            r == if self.pos == 0 {
                None
            } else if self.pos < CHUNK {
                Some((0u64, self.pos))
            } else {
                Some(((self.pos - CHUNK) as u64, CHUNK))
            },
    {
        if self.pos == 0 {
            None
        } else if self.pos < CHUNK {
            Some((0, self.pos))
        } else {
            Some((self.pos - CHUNK, CHUNK))
        }
    }

    /// Takes the piece of the file that ends where the scan stands.
    pub fn feed(&mut self, piece: Vec<u8>) -> (r: TailStep)
        requires
            piece@.len() <= old(self).pos,
        ensures
            final(self).pos == old(self).pos - piece@.len(),
            final(self).tail@ == piece@ + old(self).tail@,
            r@ == tail_step(final(self).tail@, final(self).pos as nat),
            forall|data: Seq<u8>|
                final(self).pos <= data.len() && #[trigger] data.skip(final(self).pos as int)
                    == final(self).tail@ ==> match r {
                    TailStep::ReadMore => final(self).pos > 0,
                    TailStep::NoLine => crate::data_laws::is_last(None, data),
                    TailStep::Line(line) => crate::data_laws::is_last(Some(line@), data),
                },
    {
        proof {
            let pos = (self.pos - piece@.len()) as int;
            let tail = piece@ + self.tail@;
            assert forall|data: Seq<u8>|
                pos <= data.len() && #[trigger] data.skip(pos) == tail implies match tail_step(
                tail,
                pos as nat,
            ) {
                TailView::ReadMore => pos > 0,
                TailView::NoLine => crate::data_laws::is_last(None, data),
                TailView::Line(line) => crate::data_laws::is_last(Some(line), data),
            } by {
                tail_scan_is_exact(data, pos);
                crate::data_laws::last_line_is_last(data);
            }
        }
        let mut whole = piece;
        self.pos = self.pos - whole.len() as u64;
        whole.append(&mut self.tail);
        self.tail = whole;
        let size: usize = self.tail.len();
        let mut end: usize = size;
        while end > 0 && (self.tail[end - 1] == 10 || self.tail[end - 1] == 13)
            invariant
                end <= size,
                size == self.tail@.len(),
                forall|i: int| end <= i < size ==> self.tail@[i] == 10 || self.tail@[i] == 13,
            decreases end,
        {
            end = end - 1;
        }
        let ghost text = self.tail@.take(end as int);
        proof {
            lemma_line_ends_from(self.tail@, end as int);
        }
        if end == 0 {
            return if self.pos == 0 {
                TailStep::NoLine
            } else {
                TailStep::ReadMore
            };
        }
        let mut start: usize = end;
        while start > 0 && self.tail[start - 1] != 10
            invariant
                start <= end <= size,
                size == self.tail@.len(),
                forall|i: int| start <= i < end ==> self.tail@[i] != 10,
            decreases start,
        {
            start = start - 1;
        }
        proof {
            lemma_last_feed_before(text, start as int);
        }
        if start == 0 && self.pos > 0 {
            return TailStep::ReadMore;
        }
        let line = vstd::slice::slice_subrange(self.tail.as_slice(), start, end);
        assert(line@ =~= text.skip(start as int));
        TailStep::Line(vstd::slice::slice_to_vec(line))
    }
}

/// The last line of the file's end is the last line of the file, as soon as the
/// scan says so.
pub proof fn tail_scan_is_exact(data: Seq<u8>, pos: int)
    requires
        0 <= pos <= data.len(),
    ensures
        match tail_step(data.skip(pos), pos as nat) {
            TailView::ReadMore => pos > 0,
            TailView::NoLine => last_line(data) is None,
            TailView::Line(line) => last_line(data) == Some(line),
        },
{
    let tail = data.skip(pos);
    let text = without_line_ends(tail);
    lemma_without_line_ends(tail);
    if pos == 0 {
        assert(tail =~= data);
    } else if text.len() > 0 {
        let n = text.len() as int;
        assert forall|i: int| pos + n <= i < data.len() implies data[i] == 10 || data[i] == 13 by {
            lemma_line_ends_at(tail, i - pos);
        }
        assert(data[pos + n - 1] == text[n - 1]);
        lemma_line_ends_from(data, pos + n);
        let whole = data.take(pos + n);
        assert(whole.skip(pos) =~= text);
        lemma_last_feed_of_end(whole, pos);
    }
}

/// The bytes behind the text are line ends.
proof fn lemma_line_ends_at(s: Seq<u8>, i: int)
    requires
        without_line_ends(s).len() <= i < s.len(),
    ensures
        s[i] == 10 || s[i] == 13,
    decreases s.len(),
{
    if i < s.len() - 1 {
        lemma_line_ends_at(s.drop_last(), i);
    }
}

/// A line feed in the end of `s` is the last one of `s`.
proof fn lemma_last_feed_of_end(s: Seq<u8>, pos: int)
    requires
        0 <= pos <= s.len(),
    ensures
        after_last_feed(s.skip(pos)).len() <= s.len() - pos,
        after_last_feed(s.skip(pos)).len() < s.len() - pos ==> after_last_feed(s)
            == after_last_feed(s.skip(pos)),
    decreases s.len(),
{
    if pos < s.len() {
        lemma_last_feed_of_end(s.drop_last(), pos);
        assert(s.skip(pos).drop_last() =~= s.drop_last().skip(pos));
        assert(s.skip(pos).last() == s.last());
    }
}

/// The last line of a data file, found from its end.
pub fn last_data_line(data: &[u8]) -> (r: Option<Vec<u8>>)
    ensures
        match r {
            Some(line) => last_line(data@) == Some(line@),
            None => last_line(data@) is None,
        },
        match r {
            Some(line) => crate::data_laws::is_last(Some(line@), data@),
            None => crate::data_laws::is_last(None, data@),
        },
{
    proof {
        crate::data_laws::last_line_is_last(data@);
    }
    let size: usize = data.len();
    let mut scan = TailScan::new(size as u64);
    assert(data@.skip(data@.len() as int) =~= Seq::<u8>::empty());
    loop
        invariant
            scan.pos <= size,
            size == data@.len(),
            scan.tail@ == data@.skip(scan.pos as int),
            scan.pos == 0 ==> data@.len() == 0,
            crate::data_laws::is_last(last_line(data@), data@),
        decreases scan.pos,
    {
        match scan.next_read() {
            None => return None,
            Some((start, len)) => {
                let from: usize = start as usize;
                let piece = vstd::slice::slice_subrange(data, from, from + len as usize);
                let step = scan.feed(vstd::slice::slice_to_vec(piece));
                proof {
                    assert(scan.tail@ =~= data@.skip(from as int));
                    tail_scan_is_exact(data@, from as int);
                }
                match step {
                    TailStep::ReadMore => {},
                    TailStep::NoLine => return None,
                    TailStep::Line(line) => return Some(line),
                }
            },
        }
    }
}

/// Whether `text` can be the JSON text of a frame in a data file: it has no line
/// feed in it and no white space around it.
pub open spec fn is_frame_text(text: Seq<char>) -> bool {
    &&& text.len() > 0
    &&& !text.contains('\n')
    &&& !is_white_space(text[0])
    &&& !is_white_space(text.last())
}

/// Whether a data file is empty or ends with a line feed.
pub open spec fn ends_with_line(data: Seq<u8>) -> bool {
    data.len() == 0 || data.last() == 10
}

proof fn lemma_leading_bytes(c: u32)
    by (bit_vector)
    ensures
        vstd::utf8::has_width_1_encoding(c) ==> vstd::utf8::leading_byte_width_1(c) == c,
        vstd::utf8::leading_byte_width_2(c) >= 0x80,
        vstd::utf8::leading_byte_width_3(c) >= 0x80,
        vstd::utf8::leading_byte_width_4(c) >= 0x80,
        vstd::utf8::last_continuation_byte(c) >= 0x80,
        vstd::utf8::second_last_continuation_byte(c) >= 0x80,
        vstd::utf8::third_last_continuation_byte(c) >= 0x80,
{
}

/// A byte below 0x80 in the encoding of a character is the character itself.
proof fn lemma_encoded_char(c: char)
    ensures
        vstd::utf8::encode_scalar(c as u32).len() > 0,
        c as u32 == 10 ==> vstd::utf8::encode_scalar(c as u32) == seq![10u8],
        forall|i: int|
            0 <= i < vstd::utf8::encode_scalar(c as u32).len() ==> (
            #[trigger] vstd::utf8::encode_scalar(c as u32)[i] >= 0x80 || vstd::utf8::encode_scalar(
                c as u32,
            )[i] == c as u32),
{
    lemma_leading_bytes(c as u32);
}

proof fn lemma_encoded_push(text: Seq<char>, c: char)
    ensures
        vstd::utf8::encode_utf8(text.push(c)) == vstd::utf8::encode_utf8(text)
            + vstd::utf8::encode_scalar(c as u32),
    decreases text.len(),
{
    let all = text.push(c);
    if text.len() == 0 {
        assert(all.drop_first() =~= Seq::<char>::empty());
        assert(vstd::utf8::encode_utf8(all.drop_first()) =~= Seq::<u8>::empty());
        assert(vstd::utf8::encode_utf8(all) =~= vstd::utf8::encode_utf8(text)
            + vstd::utf8::encode_scalar(c as u32));
    } else {
        lemma_encoded_push(text.drop_first(), c);
        assert(all.drop_first() =~= text.drop_first().push(c));
        assert(vstd::utf8::encode_utf8(all) =~= vstd::utf8::encode_utf8(text)
            + vstd::utf8::encode_scalar(c as u32));
    }
}

/// A line feed in the encoding of a text stands for one in the text.
proof fn lemma_encoded_feeds(text: Seq<char>)
    requires
        !text.contains('\n'),
    ensures
        forall|i: int|
            0 <= i < vstd::utf8::encode_utf8(text).len() ==> #[trigger] vstd::utf8::encode_utf8(
                text,
            )[i] != 10,
    decreases text.len(),
{
    if text.len() > 0 {
        let rest = text.drop_first();
        assert forall|c: char| rest.contains(c) implies text.contains(c) by {
            let i = choose|i: int| 0 <= i < rest.len() && rest[i] == c;
            assert(text[i + 1] == c);
        }
        lemma_encoded_feeds(rest);
        lemma_encoded_char(text[0]);
        let head = vstd::utf8::encode_scalar(text[0] as u32);
        let bytes = vstd::utf8::encode_utf8(text);
        assert(text.contains(text[0]));
        if text[0] as u32 == 10 {
            vstd::utf8::char_u32_cast(text[0], 10);
            assert(10u32 as char == '\n');
        }
        assert forall|i: int| 0 <= i < bytes.len() implies #[trigger] bytes[i] != 10 by {
            if i < head.len() {
                assert(bytes[i] == head[i]);
            } else {
                assert(bytes[i] == vstd::utf8::encode_utf8(rest)[i - head.len()]);
            }
        }
    }
}

/// The bytes of a frame text: none is a line feed, and the last is no carriage
/// return.
proof fn lemma_frame_text_bytes(text: Seq<char>)
    requires
        is_frame_text(text),
    ensures
        vstd::utf8::encode_utf8(text).len() > 0,
        vstd::utf8::encode_utf8(text).last() != 13,
        forall|i: int|
            0 <= i < vstd::utf8::encode_utf8(text).len() ==> #[trigger] vstd::utf8::encode_utf8(
                text,
            )[i] != 10,
{
    lemma_encoded_feeds(text);
    let front = text.drop_last();
    let c = text.last();
    assert(front.push(c) =~= text);
    lemma_encoded_push(front, c);
    lemma_encoded_char(c);
    let end = vstd::utf8::encode_scalar(c as u32);
    assert(vstd::utf8::encode_utf8(text).last() == end[end.len() - 1]);
}

/// The lines of two pieces of a data file are the lines of the whole, where the
/// first piece ends with a line.
pub proof fn joined_lines(a: Seq<u8>, b: Seq<u8>, offset: nat)
    requires
        ends_with_line(a),
    ensures
        lines_from(a + b, offset) == lines_from(a, offset) + lines_from(b, offset + a.len()),
    decreases a.len(),
{
    if a.len() == 0 {
        assert(a + b =~= b);
        assert(lines_from(a, offset) + lines_from(b, offset) =~= lines_from(b, offset));
    } else {
        let n = line_feed_at(a) as int;
        lemma_line_feed_at(a);
        if n == a.len() {
            assert(a[a.len() - 1] != 10);
        }
        lemma_line_feed_is(a + b, n);
        let rest = after_first_line(a);
        assert((a + b).take(n) =~= a.take(n));
        assert(after_first_line(a + b) =~= rest + b);
        assert(rest.len() > 0 ==> rest.last() == a.last());
        joined_lines(rest, b, offset + n as nat + 1);
        assert(lines_from(a + b, offset) =~= lines_from(a, offset) + lines_from(
            b,
            offset + a.len(),
        ));
    }
}

/// A frame that is appended to a data file is read back after all the others,
/// unchanged, with the offset at which it was written.
pub proof fn appended_frame_is_read(data: Seq<u8>, text: Seq<char>)
    requires
        ends_with_line(data),
        is_frame_text(text),
        data.len() <= u64::MAX,
    ensures
        ends_with_line(data + vstd::utf8::encode_utf8(text).push(10)),
        match texts_of(data_lines(data)) {
            Ok(before) => texts_of(data_lines(data + vstd::utf8::encode_utf8(text).push(10)))
                == Ok::<_, DataError>(before.push((data.len() as u64, text))),
            Err(e) => texts_of(data_lines(data + vstd::utf8::encode_utf8(text).push(10))) == Err::<
                Seq<(u64, Seq<char>)>,
                _,
            >(e),
        },
{
    let bytes = vstd::utf8::encode_utf8(text);
    let line = bytes.push(10);
    lemma_frame_text_bytes(text);
    joined_lines(data, line, 0);
    assert forall|i: int| 0 <= i < bytes.len() implies #[trigger] line[i] != 10 by {
        assert(line[i] == bytes[i]);
    }
    lemma_line_feed_is(line, bytes.len() as int);
    assert(line.take(bytes.len() as int) =~= bytes);
    assert(first_line(line) == bytes);
    assert(after_first_line(line) =~= Seq::<u8>::empty());
    assert(lines_from(after_first_line(line), data.len() + bytes.len() + 1).len() == 0);
    assert(lines_from(line, data.len()) =~= seq![(data.len(), bytes)]);
    let all = data_lines(data + line);
    assert(all =~= data_lines(data).push((data.len(), bytes)));
    assert(all.drop_last() =~= data_lines(data));
    vstd::utf8::encode_utf8_valid_utf8(text);
    vstd::utf8::encode_utf8_decode_utf8(text);
}

/// A frame that is appended to a data file is its last line.
pub proof fn appended_frame_is_last(data: Seq<u8>, text: Seq<char>)
    requires
        ends_with_line(data),
        is_frame_text(text),
    ensures
        last_line(data + vstd::utf8::encode_utf8(text).push(10)) == Some(
            vstd::utf8::encode_utf8(text),
        ),
{
    let bytes = vstd::utf8::encode_utf8(text);
    let all = data + bytes.push(10);
    lemma_frame_text_bytes(text);
    let n = (data.len() + bytes.len()) as int;
    assert(all[n - 1] == bytes.last());
    assert(bytes.last() != 10) by {
        assert(bytes[bytes.len() - 1] != 10);
    }
    lemma_line_ends_from(all, n);
    let content = all.take(n);
    assert forall|i: int| data.len() <= i < content.len() implies content[i] != 10 by {
        assert(content[i] == bytes[i - data.len()]);
    }
    lemma_last_feed_before(content, data.len() as int);
    assert(content.skip(data.len() as int) =~= bytes);
}

/// A frame that is appended to a data file is found at the offset at which it was
/// written, whatever is appended after it.
pub proof fn appended_frame_is_found(data: Seq<u8>, text: Seq<char>, later: Seq<u8>, offset: u64)
    requires
        is_frame_text(text),
    ensures
        frame_text_at(
            (data + vstd::utf8::encode_utf8(text).push(10) + later).skip(data.len() as int),
            offset,
        ) == Ok::<_, DataError>(Some(text)),
{
    let bytes = vstd::utf8::encode_utf8(text);
    let n = bytes.len() as int;
    let rest = (data + bytes.push(10) + later).skip(data.len() as int);
    assert(rest =~= bytes.push(10) + later);
    lemma_frame_text_bytes(text);
    assert forall|i: int| 0 <= i < n implies #[trigger] rest[i] != 10 by {
        assert(rest[i] == bytes[i]);
    }
    lemma_line_feed_is(rest, n);
    let line = rest.take(n + 1);
    let shown = text.push('\n');
    lemma_encoded_push(text, '\n');
    lemma_encoded_char('\n');
    assert(line =~= vstd::utf8::encode_utf8(shown));
    vstd::utf8::encode_utf8_valid_utf8(shown);
    vstd::utf8::encode_utf8_decode_utf8(shown);
    assert(shown[0] == text[0]);
    assert(shown.drop_last() =~= text);
    assert(is_white_space('\n'));
    assert(trim_start(shown) == shown);
    assert(trim_end(shown) == trim_end(text));
}

/// The bytes of a data file to which frames with these texts were appended.
pub open spec fn written(texts: Seq<Seq<char>>) -> Seq<u8>
    decreases texts.len(),
{
    if texts.len() == 0 {
        Seq::empty()
    } else {
        written(texts.drop_last()) + vstd::utf8::encode_utf8(texts.last()).push(10)
    }
}

/// The texts of frames, each with the offset at which it was written.
pub open spec fn with_offsets(texts: Seq<Seq<char>>) -> Seq<(u64, Seq<char>)> {
    Seq::new(texts.len(), |i: int| (written(texts.take(i)).len() as u64, texts[i]))
}

/// Frames that are written one after the other to a new data file are read back,
/// all of them, in order and with the offsets at which they were written. The last
/// of them is the last line of the file.
pub proof fn written_frames_are_read(texts: Seq<Seq<char>>)
    requires
        forall|i: int| 0 <= i < texts.len() ==> is_frame_text(#[trigger] texts[i]),
        written(texts).len() <= u64::MAX,
    ensures
        ends_with_line(written(texts)),
        texts_of(data_lines(written(texts))) == Ok::<_, DataError>(with_offsets(texts)),
        last_line(written(texts)) == if texts.len() == 0 {
            None
        } else {
            Some(vstd::utf8::encode_utf8(texts.last()))
        },
    decreases texts.len(),
{
    if texts.len() == 0 {
        assert(with_offsets(texts) =~= Seq::empty());
        assert(data_lines(written(texts)) =~= Seq::empty());
    } else {
        let front = texts.drop_last();
        assert forall|i: int| 0 <= i < front.len() implies is_frame_text(#[trigger] front[i]) by {
            assert(front[i] == texts[i]);
        }
        written_frames_are_read(front);
        assert(is_frame_text(texts[texts.len() - 1]));
        appended_frame_is_read(written(front), texts.last());
        appended_frame_is_last(written(front), texts.last());
        assert(with_offsets(texts) =~= with_offsets(front).push(
            (written(front).len() as u64, texts.last()),
        )) by {
            assert(texts.take(texts.len() - 1) =~= front);
            assert forall|i: int| 0 <= i < front.len() implies with_offsets(texts)[i]
                == with_offsets(front)[i] by {
                assert(texts.take(i) =~= front.take(i));
            }
        }
    }
}

/// Appending to a data file that ends with a line does not change what is read at
/// an offset inside it.
pub proof fn appending_changes_no_line(data: Seq<u8>, more: Seq<u8>, offset: u64)
    requires
        ends_with_line(data),
        offset < data.len(),
    ensures
        frame_text_at((data + more).skip(offset as int), offset) == frame_text_at(
            data.skip(offset as int),
            offset,
        ),
{
    let rest = data.skip(offset as int);
    let longer = (data + more).skip(offset as int);
    let n = line_feed_at(rest) as int;
    lemma_line_feed_at(rest);
    if n == rest.len() {
        assert(rest[rest.len() - 1] != 10);
    }
    assert forall|i: int| 0 <= i < n implies #[trigger] longer[i] != 10 by {
        assert(longer[i] == rest[i]);
    }
    lemma_line_feed_is(longer, n);
    assert(longer.take(n + 1) =~= rest.take(n + 1));
}

/// Every frame that was written to a data file is found at the offset at which it
/// was written.
pub proof fn written_frame_is_found(texts: Seq<Seq<char>>, k: int)
    requires
        0 <= k < texts.len(),
        is_frame_text(texts[k]),
        written(texts).len() <= u64::MAX,
    ensures
        frame_text_at(
            written(texts).skip(with_offsets(texts)[k].0 as int),
            with_offsets(texts)[k].0,
        ) == Ok::<_, DataError>(Some(texts[k])),
        with_offsets(texts)[k].0 < written(texts).len(),
{
    let before = written(texts.take(k));
    let later = lemma_written_splits(texts, k);
    appended_frame_is_found(before, texts[k], later, before.len() as u64);
}

proof fn lemma_written_splits(texts: Seq<Seq<char>>, k: int) -> (later: Seq<u8>)
    requires
        0 <= k < texts.len(),
    ensures
        written(texts) == written(texts.take(k)) + vstd::utf8::encode_utf8(texts[k]).push(10)
            + later,
    decreases texts.len(),
{
    let front = texts.drop_last();
    let line = vstd::utf8::encode_utf8(texts.last()).push(10);
    if k == texts.len() - 1 {
        assert(front =~= texts.take(k));
        assert(written(texts) + Seq::<u8>::empty() =~= written(texts));
        Seq::empty()
    } else {
        let later = lemma_written_splits(front, k);
        assert(front.take(k) =~= texts.take(k));
        assert(written(texts) =~= written(texts.take(k)) + vstd::utf8::encode_utf8(
            texts[k],
        ).push(10) + (later + line));
        later + line
    }
}

} // verus!
