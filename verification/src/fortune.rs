//! Fortune records and the file format that holds them.
//!
//! A fortune file is a text file. A line that holds nothing but a percent sign
//! ends a record; the lines before it, back to the previous such line or to
//! the start of the file, are the record's body. A body without lines gives no
//! record, and lines that no percent line follows belong to no record.
use vstd::prelude::*;
use vstd::string::StringExecFns;
use vstd::string::StringSliceAdditionalSpecFns;
use vstd::utf8::decode_utf8;
use vstd::utf8::valid_utf8;
use crate::error::FortuneError;
use crate::lines::is_line;
use crate::lines::lemma_lines_read_back;
use crate::lines::line_views;
use crate::lines::written_bytes;
use crate::lines::LINE_FEED;
use crate::lines::lines_of;
use crate::lines::split_lines;
use crate::scan::lemma_stop_index;
use crate::scan::lemma_stop_index_bounds;
use crate::scan::stop_index;

verus! {

/// The only byte of a line that ends a record: the percent sign.
pub const DELIMITER: u8 = 37;

/// One fortune: its text, and the base name of the file it was read from.
#[derive(Debug)]
pub struct Fortune {
    pub source: String,
    pub text: String,
}

/// What a fortune holds, as plain text.
pub struct Record {
    pub source: Seq<char>,
    pub text: Seq<char>,
}

impl View for Fortune {
    type V = Record;

    open spec fn view(&self) -> Record {
        Record { source: self.source@, text: self.text@ }
    }
}

/// What each fortune of `fortunes` holds.
pub open spec fn record_views(fortunes: Seq<Fortune>) -> Seq<Record> {
    fortunes.map_values(|fortune: Fortune| fortune@)
}

/// True of a line that ends a record.
pub open spec fn is_delimiter(line: Seq<u8>) -> bool {
    line.len() == 1 && line[0] == DELIMITER
}

/// How many lines stand before the first delimiter: all of them where there
/// is none.
pub open spec fn body_len(lines: Seq<Seq<u8>>) -> nat {
    stop_index(lines, |line: Seq<u8>| is_delimiter(line))
}

/// The bodies of the records that `lines` hold, in order.
pub open spec fn bodies_of(lines: Seq<Seq<u8>>) -> Seq<Seq<Seq<u8>>>
    decreases lines.len(),
{
    let k = body_len(lines) as int;
    if k >= lines.len() {
        Seq::empty()
    } else {
        let later = bodies_of(lines.subrange(k + 1, lines.len() as int));
        if k == 0 {
            later
        } else {
            seq![lines.subrange(0, k)] + later
        }
    }
}

/// The lines, with a line feed between each two of them.
pub open spec fn join_lines(lines: Seq<Seq<char>>) -> Seq<char>
    decreases lines.len(),
{
    if lines.len() == 0 {
        Seq::empty()
    } else if lines.len() == 1 {
        lines[0]
    } else {
        join_lines(lines.drop_last()) + seq!['\n'] + lines.last()
    }
}

/// The text of each line.
pub open spec fn decode_lines(lines: Seq<Seq<u8>>) -> Seq<Seq<char>> {
    lines.map_values(|line: Seq<u8>| decode_utf8(line))
}

/// The record with the body `body`, read from the file `source`.
pub open spec fn record_of(source: Seq<char>, body: Seq<Seq<u8>>) -> Record {
    Record { source, text: join_lines(decode_lines(body)) }
}

/// The records that `lines` hold, in order, for a file named `source`.
pub open spec fn records_of(source: Seq<char>, lines: Seq<Seq<u8>>) -> Seq<Record> {
    bodies_of(lines).map_values(|body: Seq<Seq<u8>>| record_of(source, body))
}

/// True where every line is text in UTF-8.
pub open spec fn is_text(lines: Seq<Seq<u8>>) -> bool {
    forall|i: int| 0 <= i < lines.len() ==> valid_utf8(#[trigger] lines[i])
}

/// True of the lines of a record: there is at least one, and none is a
/// delimiter.
pub open spec fn is_body(body: Seq<Seq<u8>>) -> bool {
    &&& body.len() > 0
    &&& forall|i: int| 0 <= i < body.len() ==> !is_delimiter(#[trigger] body[i])
}

/// The lines of a file that holds `bodies`, each followed by a delimiter.
pub open spec fn written_lines(bodies: Seq<Seq<Seq<u8>>>) -> Seq<Seq<u8>>
    decreases bodies.len(),
{
    if bodies.len() == 0 {
        Seq::empty()
    } else {
        bodies[0].push(seq![DELIMITER]) + written_lines(bodies.drop_first())
    }
}

/// Records that each end with a delimiter are read back one for one and in
/// order. Lines after the last delimiter add nothing: a record that no
/// delimiter ends is lost.
pub proof fn lemma_terminated_bodies(bodies: Seq<Seq<Seq<u8>>>, tail: Seq<Seq<u8>>)
    requires
        forall|i: int| 0 <= i < bodies.len() ==> is_body(#[trigger] bodies[i]),
        forall|i: int| 0 <= i < tail.len() ==> !is_delimiter(#[trigger] tail[i]),
    ensures
        bodies_of(written_lines(bodies) + tail) == bodies,
    decreases bodies.len(),
{
    let lines = written_lines(bodies) + tail;
    if bodies.len() == 0 {
        assert(lines == tail);
        lemma_stop_index(tail, |line: Seq<u8>| is_delimiter(line), tail.len() as int);
    } else {
        let first = bodies[0];
        let rest = bodies.drop_first();
        assert(is_body(first));
        assert forall|i: int| 0 <= i < rest.len() implies is_body(#[trigger] rest[i]) by {
            assert(rest[i] == bodies[i + 1]);
        }
        lemma_terminated_bodies(rest, tail);
        assert forall|j: int| 0 <= j < first.len() implies !is_delimiter(#[trigger] lines[j]) by {
            assert(lines[j] == first[j]);
        }
        assert(lines[first.len() as int] == seq![DELIMITER]);
        lemma_stop_index(lines, |line: Seq<u8>| is_delimiter(line), first.len() as int);
        assert(lines.subrange(0, first.len() as int) == first);
        assert(lines.subrange(first.len() as int + 1, lines.len() as int) == written_lines(rest)
            + tail);
        assert(seq![first] + rest == bodies);
    }
}

/// Every body that is read has at least one line, and none of its lines is a
/// delimiter.
pub proof fn lemma_bodies_are_bodies(lines: Seq<Seq<u8>>, i: int)
    requires
        0 <= i < bodies_of(lines).len(),
    ensures
        is_body(bodies_of(lines)[i]),
    decreases lines.len(),
{
    lemma_stop_index_bounds(lines, |line: Seq<u8>| is_delimiter(line));
    let k = body_len(lines) as int;
    let later = lines.subrange(k + 1, lines.len() as int);
    if k > 0 && i == 0 {
        let body = lines.subrange(0, k);
        assert forall|j: int| 0 <= j < body.len() implies !is_delimiter(#[trigger] body[j]) by {
            assert(body[j] == lines[j]);
        }
    } else if k > 0 {
        lemma_bodies_are_bodies(later, i - 1);
    } else {
        lemma_bodies_are_bodies(later, i);
    }
}

/// A file that holds well-formed records, each ended by a delimiter line,
/// gives exactly these records, in the order of the file. Lines after the last
/// delimiter, and bytes after the last line feed, give no record.
pub proof fn lemma_file_records(
    source: Seq<char>,
    bodies: Seq<Seq<Seq<u8>>>,
    tail: Seq<Seq<u8>>,
    last: Seq<u8>,
)
    requires
        forall|i: int| 0 <= i < bodies.len() ==> is_body(#[trigger] bodies[i]),
        forall|i: int, j: int|
            0 <= i < bodies.len() && 0 <= j < bodies[i].len() ==> is_line(#[trigger] bodies[i][j]),
        forall|i: int|
            0 <= i < tail.len() ==> is_line(#[trigger] tail[i]) && !is_delimiter(tail[i]),
        forall|i: int| 0 <= i < last.len() ==> #[trigger] last[i] != LINE_FEED,
        !is_delimiter(last),
    ensures
        records_of(source, lines_of(written_bytes(written_lines(bodies) + tail) + last))
            == bodies.map_values(|body: Seq<Seq<u8>>| record_of(source, body)),
        records_of(source, lines_of(written_bytes(written_lines(bodies) + tail) + last)).len()
            == bodies.len(),
{
    let lines = written_lines(bodies) + tail;
    lemma_written_lines_are_lines(bodies);
    lemma_lines_read_back(lines, last);
    if last.len() == 0 {
        lemma_terminated_bodies(bodies, tail);
    } else {
        assert(lines.push(last) == written_lines(bodies) + tail.push(last));
        lemma_terminated_bodies(bodies, tail.push(last));
    }
}

/// A file of records whose lines are text in UTF-8 holds nothing but text:
/// reading it does not fail.
pub proof fn lemma_file_is_text(bodies: Seq<Seq<Seq<u8>>>, tail: Seq<Seq<u8>>, last: Seq<u8>)
    requires
        forall|i: int, j: int|
            0 <= i < bodies.len() && 0 <= j < bodies[i].len() ==> is_line(#[trigger] bodies[i][j])
                && valid_utf8(bodies[i][j]),
        forall|i: int| 0 <= i < tail.len() ==> is_line(#[trigger] tail[i]) && valid_utf8(tail[i]),
        forall|i: int| 0 <= i < last.len() ==> #[trigger] last[i] != LINE_FEED,
        valid_utf8(last),
    ensures
        is_text(lines_of(written_bytes(written_lines(bodies) + tail) + last)),
{
    let lines = written_lines(bodies) + tail;
    lemma_written_lines_are_lines(bodies);
    lemma_written_lines_are_text(bodies);
    lemma_lines_read_back(lines, last);
    let read = lines_of(written_bytes(lines) + last);
    assert forall|i: int| 0 <= i < read.len() implies valid_utf8(#[trigger] read[i]) by {
        if i < written_lines(bodies).len() {
            assert(read[i] == written_lines(bodies)[i]);
        } else if i < lines.len() {
            assert(read[i] == tail[i - written_lines(bodies).len()]);
        }
    }
}

/// Delimiters between bodies of text leave text.
proof fn lemma_written_lines_are_text(bodies: Seq<Seq<Seq<u8>>>)
    requires
        forall|i: int, j: int|
            0 <= i < bodies.len() && 0 <= j < bodies[i].len() ==> valid_utf8(
                #[trigger] bodies[i][j],
            ),
    ensures
        is_text(written_lines(bodies)),
    decreases bodies.len(),
{
    if bodies.len() > 0 {
        let first = bodies[0];
        let rest = bodies.drop_first();
        assert forall|i: int, j: int|
            0 <= i < rest.len() && 0 <= j < rest[i].len() implies valid_utf8(
            #[trigger] rest[i][j],
        ) by {
            assert(rest[i] == bodies[i + 1]);
        }
        lemma_written_lines_are_text(rest);
        let lines = written_lines(bodies);
        let delimiter = seq![DELIMITER];
        assert(valid_utf8(delimiter)) by {
            reveal_with_fuel(valid_utf8, 2);
            assert(vstd::utf8::pop_first_scalar(delimiter) == Seq::<u8>::empty());
        }
        assert forall|i: int| 0 <= i < lines.len() implies valid_utf8(#[trigger] lines[i]) by {
            if i < first.len() {
                assert(lines[i] == bodies[0][i]);
            } else if i == first.len() {
                assert(lines[i] == delimiter);
            } else {
                assert(lines[i] == written_lines(rest)[i - first.len() - 1]);
            }
        }
    }
}

/// Delimiters between bodies of lines leave lines.
proof fn lemma_written_lines_are_lines(bodies: Seq<Seq<Seq<u8>>>)
    requires
        forall|i: int, j: int|
            0 <= i < bodies.len() && 0 <= j < bodies[i].len() ==> is_line(#[trigger] bodies[i][j]),
    ensures
        forall|i: int|
            0 <= i < written_lines(bodies).len() ==> is_line(#[trigger] written_lines(bodies)[i]),
    decreases bodies.len(),
{
    if bodies.len() > 0 {
        let first = bodies[0];
        let rest = bodies.drop_first();
        assert forall|i: int, j: int| 0 <= i < rest.len() && 0 <= j < rest[i].len() implies is_line(
            #[trigger] rest[i][j],
        ) by {
            assert(rest[i] == bodies[i + 1]);
        }
        lemma_written_lines_are_lines(rest);
        let lines = written_lines(bodies);
        assert forall|i: int| 0 <= i < lines.len() implies is_line(#[trigger] lines[i]) by {
            if i < first.len() {
                assert(lines[i] == bodies[0][i]);
            } else if i == first.len() {
                assert(lines[i] == seq![DELIMITER]);
            } else {
                assert(lines[i] == written_lines(rest)[i - first.len() - 1]);
            }
        }
    }
}

/// `std::str::from_utf8`: the bytes as text where they are valid UTF-8, which
/// is then the text that encodes to exactly these bytes, and nothing where
/// they are not.
#[verifier::external_body]
fn decode_line<'a>(bytes: &'a [u8]) -> (text: Option<&'a str>)
    ensures
        text is Some <==> valid_utf8(bytes@),
        text matches Some(s) ==> s.spec_bytes() == bytes@,
{
    std::str::from_utf8(bytes).ok()
}

/// Reads the records out of the lines of one file, named `source`. Nothing is
/// returned where a line is not text in UTF-8.
pub fn parse_lines(source: &str, lines: &Vec<&[u8]>) -> (parsed: Option<Vec<Fortune>>)
    ensures
        parsed is Some <==> is_text(line_views(lines@)),
        parsed matches Some(fortunes) ==> record_views(fortunes@) == records_of(
            source@,
            line_views(lines@),
        ),
{
    let ghost all = line_views(lines@);
    let ghost done: Seq<Seq<Seq<u8>>> = Seq::empty();
    let n: usize = lines.len();
    let mut fortunes: Vec<Fortune> = Vec::new();
    let mut text = String::new();
    let mut pending: usize = 0;
    let mut i: usize = 0;
    assert(all.subrange(0, n as int) == all);
    assert(decode_lines(all.subrange(0, 0)) == Seq::<Seq<char>>::empty());
    while i < n
        invariant
            pending <= i <= n,
            n == lines@.len(),
            all == line_views(lines@),
            forall|j: int| 0 <= j < i ==> valid_utf8(#[trigger] all[j]),
            forall|j: int| i - pending <= j < i ==> !is_delimiter(#[trigger] all[j]),
            text@ == join_lines(decode_lines(all.subrange(i - pending, i as int))),
            bodies_of(all) == done + bodies_of(all.subrange(i - pending, n as int)),
            record_views(fortunes@) == done.map_values(
                |body: Seq<Seq<u8>>| record_of(source@, body),
            ),
        decreases n - i,
    {
        let line: &[u8] = lines[i];
        assert(line@ == all[i as int]);
        let decoded = match decode_line(line) {
            Some(decoded) => decoded,
            None => {
                return None;
            },
        };
        let ghost rest = all.subrange(i - pending, n as int);
        let ghost body = all.subrange(i - pending, i as int);
        if line.len() == 1 && line[0] == DELIMITER {
            proof {
                assert forall|j: int| 0 <= j < pending implies !is_delimiter(
                    #[trigger] rest[j],
                ) by {
                    assert(rest[j] == all[i - pending + j]);
                }
                lemma_stop_index(rest, |line: Seq<u8>| is_delimiter(line), pending as int);
                assert(rest.subrange(0, pending as int) == body);
                assert(rest.subrange(pending + 1, rest.len() as int) == all.subrange(
                    i + 1,
                    n as int,
                ));
            }
            if pending > 0 {
                let fortune = Fortune { source: String::from_str(source), text };
                proof {
                    assert(fortune@ == record_of(source@, body));
                    assert(record_views(fortunes@.push(fortune)) == record_views(
                        fortunes@,
                    ).push(fortune@));
                    assert(done.push(body).map_values(
                        |body: Seq<Seq<u8>>| record_of(source@, body),
                    ) == done.map_values(
                        |body: Seq<Seq<u8>>| record_of(source@, body),
                    ).push(record_of(source@, body)));
                    assert(done + (seq![body] + bodies_of(all.subrange(i + 1, n as int)))
                        == done.push(body) + bodies_of(all.subrange(i + 1, n as int)));
                    done = done.push(body);
                }
                fortunes.push(fortune);
                text = String::new();
                pending = 0;
            }
            assert(decode_lines(all.subrange(i + 1, i + 1)) == Seq::<Seq<char>>::empty());
        } else {
            proof {
                vstd::utf8::encode_utf8_decode_utf8(decoded@);
                reveal_strlit("\n");
                let longer = all.subrange(i - pending, i + 1);
                assert(decode_lines(longer).drop_last() == decode_lines(body));
                assert(decode_lines(longer).last() == decoded@);
                assert("\n"@ == seq!['\n']);
            }
            if pending > 0 {
                text.append("\n");
            }
            text.append(decoded);
            pending = pending + 1;
        }
        i = i + 1;
    }
    proof {
        let rest = all.subrange(n - pending, n as int);
        lemma_stop_index(rest, |line: Seq<u8>| is_delimiter(line), pending as int);
        assert(done + Seq::<Seq<Seq<u8>>>::empty() == done);
    }
    Some(fortunes)
}

/// Reads the records out of the bytes of one file, named `source`. Nothing is
/// returned where a line of the file is not text in UTF-8.
pub fn parse_file(source: &str, content: &[u8]) -> (parsed: Option<Vec<Fortune>>)
    ensures
        parsed is Some <==> is_text(lines_of(content@)),
        parsed matches Some(fortunes) ==> record_views(fortunes@) == records_of(
            source@,
            lines_of(content@),
        ),
{
    let lines = split_lines(content);
    parse_lines(source, &lines)
}

/// A candidate file after the attempt to read it: the path it was opened by,
/// its base name, and either its bytes or the reason why there are none.
#[derive(Debug)]
pub struct SourceFile {
    pub path: String,
    pub name: String,
    pub data: Result<Vec<u8>, String>,
}

/// The reason given for a file that holds a line that is not text.
pub open spec fn invalid_text_cause() -> Seq<char> {
    "stream did not contain valid UTF-8"@
}

/// Why `file` yields no records: the reason why it could not be read, or that
/// one of its lines is not text. `None` for a file that can be parsed.
pub open spec fn file_failure(file: SourceFile) -> Option<Seq<char>> {
    match file.data {
        Err(cause) => Some(cause@),
        Ok(bytes) => if is_text(lines_of(bytes@)) {
            None
        } else {
            Some(invalid_text_cause())
        },
    }
}

/// The records of one file that was read.
pub open spec fn file_records(file: SourceFile) -> Seq<Record> {
    match file.data {
        Err(_) => Seq::empty(),
        Ok(bytes) => records_of(file.name@, lines_of(bytes@)),
    }
}

/// How many files stand before the first that fails: all of them where none
/// does.
pub open spec fn readable_len(files: Seq<SourceFile>) -> nat {
    stop_index(files, |file: SourceFile| file_failure(file) is Some)
}

/// The records of all the files, file after file.
pub open spec fn all_records(files: Seq<SourceFile>) -> Seq<Record>
    decreases files.len(),
{
    if files.len() == 0 {
        Seq::empty()
    } else {
        all_records(files.drop_last()) + file_records(files.last())
    }
}

fn read_failure(path: &String, cause: &str) -> (e: FortuneError)
    ensures
        e matches FortuneError::ReadFailure { path: p, cause: c } && p@ == path@ && c@ == cause@,
{
    FortuneError::ReadFailure { path: path.clone(), cause: String::from_str(cause) }
}

/// Gathers the records of `files`, file after file and, within a file, in the
/// order in which they stand there. The first file that could not be read, or
/// that holds a line that is not text, ends the work: the error names its path
/// and the reason, and no records are returned at all.
pub fn read_fortunes(files: &[SourceFile]) -> (r: Result<Vec<Fortune>, FortuneError>)
    ensures
        match r {
            Ok(fortunes) => {
                &&& readable_len(files@) == files@.len()
                &&& record_views(fortunes@) == all_records(files@)
            },
            Err(e) => {
                let k = readable_len(files@) as int;
                &&& k < files@.len()
                &&& e matches FortuneError::ReadFailure { path, cause }
                &&& path@ == files@[k].path@
                &&& Some(cause@) == file_failure(files@[k])
            },
        },
{
    let n: usize = files.len();
    let mut fortunes: Vec<Fortune> = Vec::new();
    let mut i: usize = 0;
    while i < n
        invariant
            i <= n,
            n == files@.len(),
            forall|j: int| 0 <= j < i ==> file_failure(#[trigger] files@[j]) is None,
            record_views(fortunes@) == all_records(files@.subrange(0, i as int)),
        decreases n - i,
    {
        let file = &files[i];
        let mut parsed = match &file.data {
            Err(cause) => {
                proof {
                    lemma_stop_index(
                        files@,
                        |file: SourceFile| file_failure(file) is Some,
                        i as int,
                    );
                }
                return Err(read_failure(&file.path, cause.as_str()));
            },
            Ok(bytes) => match parse_file(file.name.as_str(), bytes.as_slice()) {
                None => {
                    proof {
                        lemma_stop_index(
                            files@,
                            |file: SourceFile| file_failure(file) is Some,
                            i as int,
                        );
                    }
                    return Err(read_failure(&file.path, "stream did not contain valid UTF-8"));
                },
                Some(parsed) => parsed,
            },
        };
        proof {
            let longer = files@.subrange(0, i + 1);
            assert(longer.drop_last() == files@.subrange(0, i as int));
            assert(longer.last() == files@[i as int]);
            assert(record_views(fortunes@ + parsed@) == record_views(fortunes@) + record_views(
                parsed@,
            ));
        }
        fortunes.append(&mut parsed);
        i = i + 1;
    }
    proof {
        lemma_stop_index(files@, |file: SourceFile| file_failure(file) is Some, n as int);
        assert(files@.subrange(0, n as int) == files@);
    }
    Ok(fortunes)
}

} // verus!
