//! The header line that opens an entry: a marker, then the title, which
//! for a dated entry starts with a date token and a separator.

use crate::date::date_of;
use crate::date::parse_date;
use crate::date::Date;
use crate::text::chars_of;
use crate::text::find_first;
use crate::text::first_line;
use crate::text::is_first_occurrence;
use crate::text::lemma_first_line_is_prefix;
use crate::text::lemma_line_end;
use crate::text::lemma_lines_start_with_first_line;
use crate::text::line_end;
use crate::text::lines_of;
use crate::text::newline;
use crate::text::occurs_at;
use crate::text::occurs_in;
use crate::text::string_of;
use vstd::prelude::*;

verus! {

/// The marker that opens a header line: a hash and one space.
pub open spec fn marker() -> Seq<char> {
    seq!['#', ' ']
}

/// What stands between the date token and the rest of a title.
pub open spec fn separator() -> Seq<char> {
    seq![' ', '-', ' ']
}

/// `line` opens an entry.
pub open spec fn is_header(line: Seq<char>) -> bool {
    marker().is_prefix_of(line)
}

/// The title that the header line `line` carries.
pub open spec fn title_of(line: Seq<char>) -> Seq<char>
    recommends
        is_header(line),
{
    line.skip(marker().len() as int)
}

/// The header line that carries `title`.
pub open spec fn header_line(title: Seq<char>) -> Seq<char> {
    marker() + title
}

/// What stands in `title` before its first separator, if it has one.
pub open spec fn date_token(title: Seq<char>) -> Option<Seq<char>> {
    if occurs_in(title, separator()) {
        Some(title.take(choose|at: int| is_first_occurrence(title, separator(), at)))
    } else {
        None
    }
}

/// The date that `title` starts with, if it starts with one.
pub open spec fn date_in(title: Seq<char>) -> Option<Date> {
    match date_token(title) {
        Some(token) => date_of(token),
        None => None,
    }
}

/// What a header line says: the title, and the date that the title
/// starts with, if any.
#[derive(Debug)]
pub struct Header {
    pub title: String,
    pub date: Option<Date>,
}

/// A `Header` with its title as a sequence of characters.
pub struct HeaderView {
    pub title: Seq<char>,
    pub date: Option<Date>,
}

impl View for Header {
    type V = HeaderView;

    open spec fn view(&self) -> HeaderView {
        HeaderView { title: self.title@, date: self.date }
    }
}

/// What `line` says as a header, if it is one.
pub open spec fn header_of(line: Seq<char>) -> Option<HeaderView> {
    if is_header(line) {
        Some(HeaderView { title: title_of(line), date: date_in(title_of(line)) })
    } else {
        None
    }
}

/// A title is found again in the header line made for it.
pub proof fn lemma_header_line_keeps_title(title: Seq<char>)
    ensures
        is_header(header_line(title)),
        title_of(header_line(title)) == title,
        header_of(header_line(title)) == Some(
            HeaderView { title: title, date: date_in(title) },
        ),
{
    let line = header_line(title);
    assert(line.subrange(0, 2) == marker());
    assert(line.skip(2) == title);
}

/// A header line is the one made for its title.
pub proof fn lemma_header_line_of_title(line: Seq<char>)
    requires
        is_header(line),
    ensures
        header_line(title_of(line)) == line,
{
    assert(line.subrange(0, 2) + line.skip(2) == line);
}

/// A non-empty text starts with the marker where its first line does.
pub proof fn lemma_first_line_is_header(text: Seq<char>)
    requires
        text.len() > 0,
    ensures
        is_header(first_line(text)) == is_header(text),
{
    lemma_line_end(text);
    lemma_first_line_is_prefix(text);
    let line = first_line(text);
    if is_header(line) {
        assert(text.subrange(0, 2) == line.subrange(0, 2));
    }
    if is_header(text) {
        let head = text.subrange(0, 2);
        assert(head[0] == text[0] && head[1] == text[1]);
        let end = line_end(text);
        assert(end >= 2);
        if end < text.len() {
            let whole = text.take(end);
            assert(whole[end - 1] == text[end - 1]);
            assert(line.len() >= 2);
        }
        assert(line.subrange(0, 2) == text.subrange(0, 2));
    }
}

/// What a text must hold for one of its lines behind the first to be a
/// header line: a line feed with the marker behind it.
pub open spec fn opening() -> Seq<char> {
    newline() + marker()
}

/// A header line behind the first line of a text stands behind a line
/// feed of the text.
pub proof fn lemma_later_header_follows_newline(text: Seq<char>, k: int)
    requires
        1 <= k < lines_of(text).len(),
        is_header(lines_of(text)[k]),
    ensures
        occurs_in(text, opening()),
    decreases text.len(),
{
    lemma_line_end(text);
    let end = line_end(text);
    let rest = text.skip(end + 1);
    assert(lines_of(text)[k] == lines_of(rest)[k - 1]);
    if k == 1 {
        lemma_lines_start_with_first_line(rest);
        lemma_first_line_is_header(rest);
        assert(rest.subrange(0, 2) == text.subrange(end + 1, end + 3));
        assert(text.subrange(end, end + 3) == opening());
        assert(occurs_at(text, opening(), end));
    } else {
        lemma_later_header_follows_newline(rest, k - 1);
        let at = choose|at: int| occurs_at(rest, opening(), at);
        assert(text.subrange(at + end + 1, at + end + 1 + 3) == rest.subrange(at, at + 3));
        assert(occurs_at(text, opening(), at + end + 1));
    }
}

/// Whether `chars` starts with the marker.
pub fn starts_with_marker(chars: &Vec<char>) -> (found: bool)
    ensures
        found == is_header(chars@),
{
    let found = chars.len() >= 2 && chars[0] == '#' && chars[1] == ' ';
    proof {
        if chars.len() >= 2 {
            let head = chars@.subrange(0, 2);
            assert(head[0] == chars@[0] && head[1] == chars@[1]);
            if found {
                assert(marker() == head);
            }
        }
    }
    found
}

/// Whether `line` opens an entry.
pub fn is_header_line(line: &str) -> (found: bool)
    ensures
        found == is_header(line@),
{
    let chars = chars_of(line);
    starts_with_marker(&chars)
}

/// What stands in `title` before its first separator, if it has one.
pub fn read_date_token(title: &str) -> (token: Option<String>)
    ensures
        match token {
            Some(t) => date_token(title@) == Some(t@),
            None => date_token(title@) is None,
        },
{
    let chars = chars_of(title);
    let pattern: Vec<char> = vec![' ', '-', ' '];
    assert(pattern@ == separator());
    match find_first(&chars, &pattern) {
        Some(at) => {
            proof {
                let first = choose|i: int| is_first_occurrence(title@, separator(), i);
                assert(occurs_at(title@, separator(), at as int));
                assert(is_first_occurrence(title@, separator(), first));
                assert(first == at);
            }
            Some(string_of(&chars, 0, at))
        },
        None => None,
    }
}

/// The date that `title` starts with, if it starts with one.
pub fn read_date(title: &str) -> (date: Option<Date>)
    ensures
        date == date_in(title@),
{
    match read_date_token(title) {
        Some(token) => parse_date(token.as_str()),
        None => None,
    }
}

/// The title that `line` carries, if it is a header line.
pub fn read_title(line: &str) -> (title: Option<String>)
    ensures
        match title {
            Some(t) => is_header(line@) && t@ == title_of(line@),
            None => !is_header(line@),
        },
{
    let chars = chars_of(line);
    if starts_with_marker(&chars) {
        Some(string_of(&chars, 2, chars.len()))
    } else {
        None
    }
}

/// Reads `line` as a header: `None` unless it starts with the marker,
/// else the title behind the marker and the date that the title starts
/// with.
pub fn parse_header(line: &str) -> (header: Option<Header>)
    ensures
        match header {
            Some(h) => header_of(line@) == Some(h@),
            None => header_of(line@) is None,
        },
{
    match read_title(line) {
        Some(title) => {
            let date = read_date(title.as_str());
            Some(Header { title, date })
        },
        None => None,
    }
}

/// The header line that carries `title`.
pub fn format_header(title: &str) -> (line: String)
    ensures
        line@ == header_line(title@),
{
    let mut line = String::new();
    line.push('#');
    line.push(' ');
    line.append(title);
    assert(line@ == header_line(title@));
    line
}

} // verus!
