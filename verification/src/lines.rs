//! Cutting the bytes of a file into lines.
//!
//! A line ends at a line feed. The line feed is not part of the line, and
//! neither is a carriage return that stands directly before it. Bytes after
//! the last line feed form a last line, kept as it is.
use vstd::prelude::*;
use vstd::slice::slice_subrange;
use crate::scan::lemma_stop_index;
use crate::scan::stop_index;

verus! {

/// The byte that ends a line.
pub const LINE_FEED: u8 = 10;

/// The byte that is dropped where it stands directly before a line feed.
pub const CARRIAGE_RETURN: u8 = 13;

/// How many bytes stand before the first line feed: all of them where there is
/// none.
pub open spec fn line_len(bytes: Seq<u8>) -> nat {
    stop_index(bytes, |byte: u8| byte == LINE_FEED)
}

/// The line without the carriage return that may end it.
pub open spec fn strip_carriage_return(line: Seq<u8>) -> Seq<u8> {
    if line.len() > 0 && line.last() == CARRIAGE_RETURN {
        line.drop_last()
    } else {
        line
    }
}

/// The lines of a file, in order.
pub open spec fn lines_of(bytes: Seq<u8>) -> Seq<Seq<u8>>
    decreases bytes.len(),
{
    let k = line_len(bytes) as int;
    if bytes.len() == 0 {
        Seq::empty()
    } else if k >= bytes.len() {
        seq![bytes]
    } else {
        seq![strip_carriage_return(bytes.subrange(0, k))] + lines_of(
            bytes.subrange(k + 1, bytes.len() as int),
        )
    }
}

/// The bytes of each line of `lines`.
pub open spec fn line_views(lines: Seq<&[u8]>) -> Seq<Seq<u8>> {
    lines.map_values(|line: &[u8]| line@)
}

/// Cuts `content` into its lines. Nothing is copied: each line is a part of
/// `content`.
pub fn split_lines(content: &[u8]) -> (lines: Vec<&[u8]>)
    ensures
        line_views(lines@) == lines_of(content@),
{
    let n: usize = content.len();
    let mut lines: Vec<&[u8]> = Vec::new();
    let mut start: usize = 0;
    let mut i: usize = 0;
    assert(content@.subrange(0, n as int) == content@);
    while i < n
        invariant
            start <= i <= n,
            n == content@.len(),
            forall|j: int| start <= j < i ==> content@[j] != LINE_FEED,
            lines_of(content@) == line_views(lines@) + lines_of(
                content@.subrange(start as int, n as int),
            ),
        decreases n - i,
    {
        if content[i] == LINE_FEED {
            let end: usize = if i > start && content[i - 1] == CARRIAGE_RETURN {
                i - 1
            } else {
                i
            };
            let line = slice_subrange(content, start, end);
            proof {
                let rest = content@.subrange(start as int, n as int);
                lemma_stop_index(rest, |byte: u8| byte == LINE_FEED, i - start);
                assert(rest.subrange(0, i - start) == content@.subrange(start as int, i as int));
                assert(rest.subrange(i - start + 1, rest.len() as int) == content@.subrange(
                    i + 1,
                    n as int,
                ));
                assert(line@ == strip_carriage_return(rest.subrange(0, i - start)));
                assert(line_views(lines@.push(line)) == line_views(lines@).push(line@));
            }
            lines.push(line);
            start = i + 1;
        }
        i = i + 1;
    }
    if start < n {
        let line = slice_subrange(content, start, n);
        proof {
            lemma_stop_index(line@, |byte: u8| byte == LINE_FEED, n - start);
            assert(line_views(lines@.push(line)) == line_views(lines@).push(line@));
        }
        lines.push(line);
    }
    lines
}

/// True of bytes that can stand as one line of a file and be read back as
/// they are: no line feed among them, and no carriage return at their end.
pub open spec fn is_line(line: Seq<u8>) -> bool {
    &&& forall|i: int| 0 <= i < line.len() ==> #[trigger] line[i] != LINE_FEED
    &&& !(line.len() > 0 && line.last() == CARRIAGE_RETURN)
}

/// The bytes of a file that holds `lines`, each ended by a line feed.
pub open spec fn written_bytes(lines: Seq<Seq<u8>>) -> Seq<u8>
    decreases lines.len(),
{
    if lines.len() == 0 {
        Seq::empty()
    } else {
        lines[0].push(LINE_FEED) + written_bytes(lines.drop_first())
    }
}

/// The lines of a file are read back as they were written. Where bytes follow
/// the last line feed, they are read as one more line.
pub proof fn lemma_lines_read_back(lines: Seq<Seq<u8>>, last: Seq<u8>)
    requires
        forall|i: int| 0 <= i < lines.len() ==> is_line(#[trigger] lines[i]),
        forall|i: int| 0 <= i < last.len() ==> #[trigger] last[i] != LINE_FEED,
    ensures
        lines_of(written_bytes(lines) + last) == if last.len() == 0 {
            lines
        } else {
            lines.push(last)
        },
    decreases lines.len(),
{
    let bytes = written_bytes(lines) + last;
    if lines.len() == 0 {
        assert(bytes == last);
        lemma_stop_index(last, |byte: u8| byte == LINE_FEED, last.len() as int);
    } else {
        let first = lines[0];
        let rest = lines.drop_first();
        assert(is_line(first));
        assert forall|i: int| 0 <= i < rest.len() implies is_line(#[trigger] rest[i]) by {
            assert(rest[i] == lines[i + 1]);
        }
        lemma_lines_read_back(rest, last);
        lemma_stop_index(bytes, |byte: u8| byte == LINE_FEED, first.len() as int);
        assert(bytes.subrange(0, first.len() as int) == first);
        assert(bytes.subrange(first.len() as int + 1, bytes.len() as int) == written_bytes(rest)
            + last);
        if last.len() == 0 {
            assert(seq![first] + rest == lines);
        } else {
            assert(seq![first] + rest.push(last) == lines.push(last));
        }
    }
}

} // verus!
