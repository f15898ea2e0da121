//! What the lines of a data file are, said of its bytes.
//!
//! Nothing here runs.

use crate::data_file::{DataError, DataLine};
use vstd::prelude::*;

verus! {

/// Whether the bytes from `a` to `b` are the text of a line: it starts the file or
/// follows a line feed, holds none, and is followed by a line feed, by a carriage
/// return and a line feed, or by nothing.
pub open spec fn line_at(data: Seq<u8>, a: int, b: int) -> bool {
    &&& 0 <= a <= b <= data.len()
    &&& a > 0 ==> data[a - 1] == 10
    &&& forall|i: int| a <= i < b ==> #[trigger] data[i] != 10
    &&& {
        ||| b == data.len()
        ||| data[b] == 10 && (a < b ==> data[b - 1] != 13)
        ||| b + 1 < data.len() && data[b] == 13 && data[b + 1] == 10
    }
}

/// Whether `spans` are all lines of a data file that are not empty, in order.
pub open spec fn are_lines(spans: Seq<(int, int)>, data: Seq<u8>) -> bool {
    &&& forall|i: int|
        0 <= i < spans.len() ==> line_at(data, (#[trigger] spans[i]).0, spans[i].1) && spans[i].0
            < spans[i].1
    &&& forall|i: int, j: int|
        0 <= i < j < spans.len() ==> (#[trigger] spans[i]).0 < (#[trigger] spans[j]).0
    &&& forall|a: int, b: int| a < b && #[trigger] line_at(data, a, b) ==> spans.contains((a, b))
}

/// Whether `lines` are the lines of a data file, each with its offset and its text.
pub open spec fn reads_lines(lines: Seq<DataLine>, data: Seq<u8>) -> bool {
    exists|spans: Seq<(int, int)>| #[trigger]
        are_lines(spans, data) && lines.len() == spans.len() && forall|i: int|
            0 <= i < spans.len() ==> (#[trigger] spans[i]).0 == lines[i].offset
                && vstd::utf8::encode_utf8(lines[i].text@) == data.subrange(
                spans[i].0,
                spans[i].1,
            )
}

/// Whether the first line of a data file that is not UTF-8 starts at `offset`.
pub open spec fn fails_at(offset: u64, data: Seq<u8>) -> bool {
    exists|a: int, b: int|
        a == offset && #[trigger] line_at(data, a, b) && !vstd::utf8::valid_utf8(
            data.subrange(a, b),
        ) && forall|c: int, d: int|
            c < a && #[trigger] line_at(data, c, d) ==> vstd::utf8::valid_utf8(
                data.subrange(c, d),
            )
}

proof fn lemma_spans(data: Seq<u8>, pos: int) -> (spans: Seq<(int, int)>)
    requires
        0 <= pos <= data.len(),
        pos > 0 && pos < data.len() ==> data[pos - 1] == 10,
    ensures
        ({
            let lines = crate::data_file::lines_from(data.skip(pos), pos as nat);
            &&& lines.len() == spans.len()
            &&& forall|i: int|
                0 <= i < spans.len() ==> line_at(data, (#[trigger] spans[i]).0, spans[i].1)
                    && pos <= spans[i].0 < spans[i].1 && lines[i].0 == spans[i].0 && lines[i].1
                    == data.subrange(spans[i].0, spans[i].1)
            &&& forall|i: int, j: int|
                0 <= i < j < spans.len() ==> (#[trigger] spans[i]).0 < (#[trigger] spans[j]).0
            &&& forall|a: int, b: int|
                pos <= a < b && #[trigger] line_at(data, a, b) ==> spans.contains((a, b))
        }),
    decreases data.len() - pos,
{
    let rest = data.skip(pos);
    if pos == data.len() {
        Seq::empty()
    } else {
        let n = crate::data_file::line_feed_at(rest) as int;
        crate::data_file::lemma_line_feed_at(rest);
        assert forall|i: int| pos <= i < pos + n implies #[trigger] data[i] != 10 by {
            assert(rest[i - pos] != 10);
        }
        let text = crate::data_file::first_line(rest);
        let end = pos + text.len();
        assert(text =~= data.subrange(pos, end));
        if n < rest.len() {
            assert(data[pos + n] == 10);
        }
        assert(line_at(data, pos, end));
        let next = if n < rest.len() {
            pos + n + 1
        } else {
            data.len() as int
        };
        assert(crate::data_file::after_first_line(rest) =~= data.skip(next));
        let later = lemma_spans(data, next);
        if n == rest.len() {
            assert(crate::data_file::lines_from(data.skip(next), (pos + n + 1) as nat).len() == 0);
        }
        let spans = if text.len() == 0 {
            later
        } else {
            seq![(pos, end)] + later
        };
        let lines = crate::data_file::lines_from(rest, pos as nat);
        assert forall|i: int| 0 <= i < spans.len() implies line_at(
            data,
            (#[trigger] spans[i]).0,
            spans[i].1,
        ) && pos <= spans[i].0 < spans[i].1 && lines[i].0 == spans[i].0 && lines[i].1
            == data.subrange(spans[i].0, spans[i].1) by {
            if text.len() == 0 {
                assert(later[i] == spans[i]);
            } else if i > 0 {
                assert(later[i - 1] == spans[i]);
            }
        }
        assert forall|i: int, j: int| 0 <= i < j < spans.len() implies (#[trigger] spans[i]).0 < (
        #[trigger] spans[j]).0 by {
            if text.len() == 0 {
                assert(later[i] == spans[i] && later[j] == spans[j]);
            } else {
                assert(later[j - 1] == spans[j]);
                if i > 0 {
                    assert(later[i - 1] == spans[i]);
                }
            }
        }
        assert forall|a: int, b: int|
            pos <= a < b && #[trigger] line_at(data, a, b) implies spans.contains((a, b)) by {
            if a >= next {
                assert(later.contains((a, b)));
                let i = choose|i: int| 0 <= i < later.len() && later[i] == (a, b);
                if text.len() == 0 {
                    assert(spans[i] == (a, b));
                } else {
                    assert(spans[i + 1] == (a, b));
                }
            } else {
                if a > pos {
                    assert(data[a - 1] != 10);
                }
                if b > pos + n {
                    assert(data[pos + n] != 10);
                }
                assert(b == end);
                assert(spans[0] == (a, b));
            }
        }
        spans
    }
}

/// The lines of a data file are exactly the runs of bytes between its line ends
/// that are not empty, in order and with the offsets at which they start.
pub proof fn data_lines_are_the_lines(data: Seq<u8>) -> (spans: Seq<(int, int)>)
    ensures
        are_lines(spans, data),
        crate::data_file::data_lines(data).len() == spans.len(),
        forall|i: int|
            0 <= i < spans.len() ==> crate::data_file::data_lines(data)[i].0 == (
            #[trigger] spans[i]).0 && crate::data_file::data_lines(data)[i].1 == data.subrange(
                spans[i].0,
                spans[i].1,
            ),
{
    assert(data.skip(0) =~= data);
    lemma_spans(data, 0)
}

/// Reading lines gives the text of each or, if one is not UTF-8, the offset of the
/// first such line.
pub proof fn texts_are_of_the_lines(lines: Seq<(nat, Seq<u8>)>)
    ensures
        match crate::data_file::texts_of(lines) {
            Ok(texts) => texts.len() == lines.len() && forall|i: int|
                0 <= i < lines.len() ==> vstd::utf8::encode_utf8((#[trigger] texts[i]).1)
                    == lines[i].1 && texts[i].0 == lines[i].0 as u64,
            Err(DataError::NotUtf8 { offset }) => exists|k: int|
                0 <= k < lines.len() && offset == (#[trigger] lines[k]).0 as u64
                    && !vstd::utf8::valid_utf8(lines[k].1) && forall|j: int|
                    0 <= j < k ==> vstd::utf8::valid_utf8((#[trigger] lines[j]).1),
        },
        crate::data_file::texts_of(lines) is Ok ==> forall|i: int|
            0 <= i < lines.len() ==> vstd::utf8::valid_utf8((#[trigger] lines[i]).1),
    decreases lines.len(),
{
    if lines.len() > 0 {
        let front = lines.drop_last();
        let n = lines.len() - 1;
        texts_are_of_the_lines(front);
        match crate::data_file::texts_of(front) {
            Ok(texts) => {
                assert forall|j: int| 0 <= j < n implies vstd::utf8::valid_utf8(
                    (#[trigger] lines[j]).1,
                ) by {
                    assert(front[j] == lines[j]);
                }
                if vstd::utf8::valid_utf8(lines[n].1) {
                    vstd::utf8::decode_utf8_encode_utf8(lines[n].1);
                    let all = crate::data_file::texts_of(lines)->Ok_0;
                    assert forall|i: int| 0 <= i < lines.len() implies vstd::utf8::encode_utf8(
                        (#[trigger] all[i]).1,
                    ) == lines[i].1 && all[i].0 == lines[i].0 as u64 by {
                        if i < n {
                            assert(all[i] == texts[i]);
                            assert(front[i] == lines[i]);
                        }
                    }
                } else {
                    assert(!vstd::utf8::valid_utf8(lines[n].1));
                }
            },
            Err(DataError::NotUtf8 { offset }) => {
                let k = choose|k: int|
                    0 <= k < front.len() && offset == (#[trigger] front[k]).0 as u64
                        && !vstd::utf8::valid_utf8(front[k].1) && forall|j: int|
                        0 <= j < k ==> vstd::utf8::valid_utf8((#[trigger] front[j]).1);
                assert(lines[k] == front[k]);
                assert forall|j: int| 0 <= j < k implies vstd::utf8::valid_utf8(
                    (#[trigger] lines[j]).1,
                ) by {
                    assert(front[j] == lines[j]);
                }
            },
        }
    }
}

/// What reading a data file gives is its lines, or the place of the first line that
/// is not UTF-8.
pub proof fn lemma_reads_lines(data: Seq<u8>, result: Result<Seq<DataLine>, DataError>)
    requires
        data.len() <= u64::MAX,
        match result {
            Ok(lines) => crate::data_file::texts_of(crate::data_file::data_lines(data)) == Ok::<
                _,
                DataError,
            >(crate::data_file::line_views(lines)),
            Err(e) => crate::data_file::texts_of(crate::data_file::data_lines(data)) == Err::<
                Seq<(u64, Seq<char>)>,
                _,
            >(e),
        },
    ensures
        match result {
            Ok(lines) => reads_lines(lines, data),
            Err(DataError::NotUtf8 { offset }) => fails_at(offset, data),
        },
{
    let found = crate::data_file::data_lines(data);
    let spans = data_lines_are_the_lines(data);
    texts_are_of_the_lines(found);
    match result {
        Ok(lines) => {
            let texts = crate::data_file::line_views(lines);
            assert(texts.len() == lines.len());
            assert forall|i: int| 0 <= i < spans.len() implies (#[trigger] spans[i]).0
                == lines[i].offset && vstd::utf8::encode_utf8(lines[i].text@) == data.subrange(
                spans[i].0,
                spans[i].1,
            ) by {
                assert(texts[i] == (lines[i].offset, lines[i].text@));
                assert(found[i].1 == data.subrange(spans[i].0, spans[i].1));
            }
        },
        Err(DataError::NotUtf8 { offset }) => {
            let k = choose|k: int|
                0 <= k < found.len() && offset == (#[trigger] found[k]).0 as u64
                    && !vstd::utf8::valid_utf8(found[k].1) && forall|j: int|
                    0 <= j < k ==> vstd::utf8::valid_utf8((#[trigger] found[j]).1);
            let (a, b) = spans[k];
            assert(line_at(data, a, b));
            assert(found[k].1 == data.subrange(a, b));
            assert forall|c: int, d: int|
                c < a && #[trigger] line_at(data, c, d) implies vstd::utf8::valid_utf8(
                data.subrange(c, d),
            ) by {
                if c < d {
                    assert(spans.contains((c, d)));
                    let j = choose|j: int| 0 <= j < spans.len() && spans[j] == (c, d);
                    if j >= k {
                        assert(spans[k].0 <= spans[j].0);
                    }
                    assert(found[j].1 == data.subrange(c, d));
                } else {
                    assert(data.subrange(c, d).len() == 0);
                }
            }
        },
    }
}

/// Whether the bytes from `a` to `b` are the last line of a data file: nothing but
/// line ends follows it.
pub open spec fn last_at(data: Seq<u8>, a: int, b: int) -> bool {
    &&& 0 <= a < b <= data.len()
    &&& a > 0 ==> data[a - 1] == 10
    &&& forall|i: int| a <= i < b ==> #[trigger] data[i] != 10
    &&& data[b - 1] != 13
    &&& forall|i: int| b <= i < data.len() ==> #[trigger] data[i] == 10 || data[i] == 13
}

/// Whether `line` is the last line of a data file, or the file holds nothing but
/// line ends and there is none.
pub open spec fn is_last(line: Option<Seq<u8>>, data: Seq<u8>) -> bool {
    match line {
        Some(l) => exists|a: int, b: int| #[trigger]
            last_at(data, a, b) && l == data.subrange(a, b),
        None => forall|i: int|
            0 <= i < data.len() ==> #[trigger] data[i] == 10 || data[i] == 13,
    }
}

proof fn lemma_text_end(data: Seq<u8>)
    ensures
        ({
            let b = crate::data_file::without_line_ends(data).len() as int;
            &&& b <= data.len()
            &&& crate::data_file::without_line_ends(data) == data.take(b)
            &&& b > 0 ==> data[b - 1] != 10 && data[b - 1] != 13
            &&& forall|i: int| b <= i < data.len() ==> #[trigger] data[i] == 10 || data[i] == 13
        }),
    decreases data.len(),
{
    if data.len() > 0 && (data.last() == 10 || data.last() == 13) {
        let front = data.drop_last();
        lemma_text_end(front);
        let b = crate::data_file::without_line_ends(data).len() as int;
        assert(front.take(b) =~= data.take(b));
        if b > 0 {
            assert(front[b - 1] == data[b - 1]);
        }
        assert forall|i: int| b <= i < data.len() implies #[trigger] data[i] == 10 || data[i]
            == 13 by {
            if i < front.len() {
                assert(front[i] == data[i]);
            }
        }
    } else {
        assert(data.take(data.len() as int) =~= data);
    }
}

proof fn lemma_last_start(s: Seq<u8>) -> (a: int)
    ensures
        0 <= a <= s.len(),
        crate::data_file::after_last_feed(s) == s.skip(a),
        a > 0 ==> s[a - 1] == 10,
        forall|i: int| a <= i < s.len() ==> #[trigger] s[i] != 10,
    decreases s.len(),
{
    if s.len() == 0 || s.last() == 10 {
        assert(s.skip(s.len() as int) =~= Seq::<u8>::empty());
        s.len() as int
    } else {
        let front = s.drop_last();
        let a = lemma_last_start(front);
        assert(front.skip(a).push(s.last()) =~= s.skip(a));
        if a > 0 {
            assert(front[a - 1] == s[a - 1]);
        }
        assert forall|i: int| a <= i < s.len() implies #[trigger] s[i] != 10 by {
            if i < front.len() {
                assert(front[i] == s[i]);
            }
        }
        a
    }
}

/// The last line of a data file is the last run of bytes between its line ends.
pub proof fn last_line_is_last(data: Seq<u8>)
    ensures
        is_last(crate::data_file::last_line(data), data),
{
    let text = crate::data_file::without_line_ends(data);
    let b = text.len() as int;
    lemma_text_end(data);
    if b > 0 {
        let a = lemma_last_start(text);
        if a == b {
            assert(text[b - 1] == 10);
        }
        if a > 0 {
            assert(data[a - 1] == text[a - 1]);
        }
        assert forall|i: int| a <= i < b implies #[trigger] data[i] != 10 by {
            assert(text[i] == data[i]);
        }
        assert(last_at(data, a, b));
        assert(text.skip(a) =~= data.subrange(a, b));
    }
}

/// Whether `text` is the first line of `data` without white space around it, or
/// there is no data and no line.
pub open spec fn is_first(text: Option<Seq<char>>, data: Seq<u8>) -> bool {
    match text {
        None => data.len() == 0,
        Some(t) => exists|e: int, line: Seq<char>|
            0 < e <= data.len() && (forall|i: int| 0 <= i < e - 1 ==> #[trigger] data[i] != 10) && (
            data[e - 1] == 10 || e == data.len()) && #[trigger] vstd::utf8::encode_utf8(line)
                == #[trigger] data.subrange(0, e) && t == crate::data_file::trimmed(line),
    }
}

/// Whether the first line of `data`, as far as its line feed, is not UTF-8.
pub open spec fn first_is_not_utf8(data: Seq<u8>) -> bool {
    exists|e: int|
        0 < e <= data.len() && (forall|i: int| 0 <= i < e - 1 ==> #[trigger] data[i] != 10) && (
        data[e - 1] == 10 || e == data.len()) && !vstd::utf8::valid_utf8(
            #[trigger] data.subrange(0, e),
        )
}

/// The frame that is read at an offset is the line that starts there.
pub proof fn frame_is_the_first_line(data: Seq<u8>, offset: u64)
    ensures
        match crate::data_file::frame_text_at(data, offset) {
            Ok(text) => is_first(text, data),
            Err(e) => e == (DataError::NotUtf8 { offset }) && first_is_not_utf8(data),
        },
{
    let n = crate::data_file::line_feed_at(data) as int;
    crate::data_file::lemma_line_feed_at(data);
    let e = if n < data.len() {
        n + 1
    } else {
        n
    };
    let line = if n < data.len() {
        data.take(n + 1)
    } else {
        data
    };
    assert(line =~= data.subrange(0, e));
    if vstd::utf8::valid_utf8(line) {
        vstd::utf8::decode_utf8_encode_utf8(line);
        if line.len() > 0 {
            assert(vstd::utf8::encode_utf8(vstd::utf8::decode_utf8(line)) == data.subrange(0, e));
        }
    } else {
        assert(!vstd::utf8::valid_utf8(data.subrange(0, e)));
    }
}

} // verus!
