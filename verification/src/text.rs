//! Text as sequences of characters: lines, prefixes and the first place
//! at which a pattern occurs.
//!
//! Every contract in this crate speaks of a string through its view, a
//! `Seq<char>`. The executable functions first copy a `&str` into a
//! `Vec<char>`, so that a character can be reached by its index.

use vstd::prelude::*;

verus! {

/// `String::push` appends one character and changes nothing else.
pub assume_specification[ String::push ](s: &mut String, ch: char)
    ensures
        final(s)@ == old(s)@.push(ch),
;

/// The line feed that ends a line.
pub open spec fn newline() -> Seq<char> {
    seq!['\n']
}

/// Number of characters before the first line feed of `text`, or
/// `text.len()` when it holds none.
pub open spec fn line_end(text: Seq<char>) -> int
    decreases text.len(),
{
    if text.len() == 0 || text[0] == '\n' {
        0
    } else {
        1 + line_end(text.drop_first())
    }
}

/// `line` without one trailing carriage return, if it has one.
pub open spec fn strip_cr(line: Seq<char>) -> Seq<char> {
    if line.len() > 0 && line.last() == '\r' {
        line.drop_last()
    } else {
        line
    }
}

/// The first line of a non-empty `text`, without its line ending.
///
/// A line ends at a line feed; a carriage return directly before that
/// line feed belongs to the ending. A last line that no line feed ends
/// is kept as it is.
pub open spec fn first_line(text: Seq<char>) -> Seq<char>
    recommends
        text.len() > 0,
{
    let end = line_end(text);
    if end < text.len() {
        strip_cr(text.take(end))
    } else {
        text
    }
}

/// The lines of `text`, each without its line ending.
///
/// An empty text has no lines, and a line feed at the very end starts
/// no further line.
pub open spec fn lines_of(text: Seq<char>) -> Seq<Seq<char>>
    decreases text.len(),
{
    if text.len() == 0 {
        Seq::empty()
    } else {
        let end = line_end(text);
        if 0 <= end < text.len() {
            seq![first_line(text)] + lines_of(text.skip(end + 1))
        } else {
            seq![text]
        }
    }
}

/// The text whose lines are `lines`, each ended by one line feed.
pub open spec fn join_lines(lines: Seq<Seq<char>>) -> Seq<char>
    decreases lines.len(),
{
    if lines.len() == 0 {
        Seq::empty()
    } else {
        join_lines(lines.drop_last()) + lines.last() + newline()
    }
}

/// `pattern` stands in `text` at index `at`.
pub open spec fn occurs_at(text: Seq<char>, pattern: Seq<char>, at: int) -> bool {
    0 <= at && at + pattern.len() <= text.len() && text.subrange(at, at + pattern.len())
        == pattern
}

/// `pattern` stands somewhere in `text`.
pub open spec fn occurs_in(text: Seq<char>, pattern: Seq<char>) -> bool {
    exists|at: int| occurs_at(text, pattern, at)
}

/// `at` is the first index at which `pattern` stands in `text`.
pub open spec fn is_first_occurrence(text: Seq<char>, pattern: Seq<char>, at: int) -> bool {
    occurs_at(text, pattern, at) && forall|earlier: int|
        0 <= earlier < at ==> !occurs_at(text, pattern, earlier)
}

/// `line_end` is the least index of a line feed, or the length.
pub proof fn lemma_line_end(text: Seq<char>)
    ensures
        0 <= line_end(text) <= text.len(),
        forall|i: int| 0 <= i < line_end(text) ==> text[i] != '\n',
        line_end(text) < text.len() ==> text[line_end(text)] == '\n',
    decreases text.len(),
{
    if text.len() == 0 || text[0] == '\n' {
    } else {
        let rest = text.drop_first();
        lemma_line_end(rest);
        assert forall|i: int| 0 <= i < line_end(text) implies text[i] != '\n' by {
            if i > 0 {
                assert(text[i] == rest[i - 1]);
            }
        }
        if line_end(text) < text.len() {
            assert(text[line_end(text)] == rest[line_end(rest)]);
        }
    }
}

/// An index with no line feed before it, which holds a line feed or is
/// the length, is `line_end`.
pub proof fn lemma_line_end_is(text: Seq<char>, end: int)
    requires
        0 <= end <= text.len(),
        forall|i: int| 0 <= i < end ==> text[i] != '\n',
        end < text.len() ==> text[end] == '\n',
    ensures
        line_end(text) == end,
{
    lemma_line_end(text);
    let found = line_end(text);
    if found < end {
        assert(text[found] == '\n');
    } else if end < found {
        assert(text[end] == '\n');
    }
}

/// A carriage return and the line feed behind it.
pub open spec fn crlf() -> Seq<char> {
    seq!['\r', '\n']
}

/// A text is complete when a line feed ends its last line.
pub open spec fn is_complete(text: Seq<char>) -> bool {
    text.len() == 0 || text.last() == '\n'
}

/// The first line of a text is a prefix of the text.
pub proof fn lemma_first_line_is_prefix(text: Seq<char>)
    ensures
        first_line(text).is_prefix_of(text),
{
    lemma_line_end(text);
    let end = line_end(text);
    if end < text.len() {
        assert(text.take(end).is_prefix_of(text));
        assert(strip_cr(text.take(end)).is_prefix_of(text));
    }
}

/// The lines of a non-empty text start with its first line.
pub proof fn lemma_lines_start_with_first_line(text: Seq<char>)
    requires
        text.len() > 0,
    ensures
        lines_of(text).len() > 0,
        lines_of(text)[0] == first_line(text),
{
    lemma_line_end(text);
}

/// Behind a complete text, another text starts on a line of its own.
pub proof fn lemma_lines_of_concat(head: Seq<char>, tail: Seq<char>)
    requires
        is_complete(head),
    ensures
        lines_of(head + tail) == lines_of(head) + lines_of(tail),
    decreases head.len(),
{
    if head.len() == 0 {
        assert(head + tail == tail);
        assert(lines_of(head) + lines_of(tail) == lines_of(tail));
    } else {
        let whole = head + tail;
        let end = line_end(head);
        lemma_line_end(head);
        if end == head.len() {
            assert(head[head.len() - 1] == '\n');
        }
        assert forall|i: int| 0 <= i < end implies whole[i] != '\n' by {
            assert(whole[i] == head[i]);
        }
        assert(whole[end] == head[end]);
        lemma_line_end_is(whole, end);
        assert(whole.take(end) == head.take(end));
        let rest = head.skip(end + 1);
        assert(whole.skip(end + 1) == rest + tail);
        if rest.len() > 0 {
            assert(rest.last() == head.last());
        }
        lemma_lines_of_concat(rest, tail);
        assert(seq![first_line(head)] + (lines_of(rest) + lines_of(tail)) == (seq![
            first_line(head),
        ] + lines_of(rest)) + lines_of(tail));
    }
}

/// Joining a line and further lines puts the line and its line feed
/// first.
pub proof fn lemma_join_lines_prepend(line: Seq<char>, rest: Seq<Seq<char>>)
    ensures
        join_lines(seq![line] + rest) == line + newline() + join_lines(rest),
    decreases rest.len(),
{
    let all = seq![line] + rest;
    if rest.len() == 0 {
        assert(all.drop_last() == Seq::<Seq<char>>::empty());
        assert(join_lines(all.drop_last()) == Seq::<char>::empty());
        assert(join_lines(all) == Seq::<char>::empty() + line + newline());
        assert(join_lines(all) == line + newline() + join_lines(rest));
    } else {
        assert(all.drop_last() == seq![line] + rest.drop_last());
        assert(all.last() == rest.last());
        lemma_join_lines_prepend(line, rest.drop_last());
        assert(line + newline() + join_lines(rest.drop_last()) + rest.last() + newline() == line
            + newline() + (join_lines(rest.drop_last()) + rest.last() + newline()));
    }
}

/// A complete text in which no carriage return stands before a line
/// feed is the join of its lines.
pub proof fn lemma_join_lines_of(text: Seq<char>)
    requires
        is_complete(text),
        !occurs_in(text, crlf()),
    ensures
        join_lines(lines_of(text)) == text,
    decreases text.len(),
{
    if text.len() > 0 {
        let end = line_end(text);
        lemma_line_end(text);
        if end == text.len() {
            assert(text[text.len() - 1] == '\n');
        }
        let line = text.take(end);
        if end > 0 && text[end - 1] == '\r' {
            assert(text.subrange(end - 1, end - 1 + 2) == crlf());
            assert(occurs_at(text, crlf(), end - 1));
        }
        assert(strip_cr(line) == line);
        let rest = text.skip(end + 1);
        if rest.len() > 0 {
            assert(rest.last() == text.last());
        }
        assert forall|at: int| !occurs_at(rest, crlf(), at) by {
            if occurs_at(rest, crlf(), at) {
                assert(text.subrange(at + end + 1, at + end + 1 + 2) == rest.subrange(at, at + 2));
                assert(occurs_at(text, crlf(), at + end + 1));
            }
        }
        lemma_join_lines_of(rest);
        lemma_join_lines_prepend(line, lines_of(rest));
        assert(line + newline() + rest == text);
    }
}

/// The characters of `s`, in order.
pub fn chars_of(s: &str) -> (chars: Vec<char>)
    ensures
        chars@ == s@,
{
    let mut chars: Vec<char> = Vec::new();
    for c in it: s.chars()
        invariant
            it.seq() == s@,
            chars@ == s@.take(it.index() as int),
    {
        chars.push(c);
    }
    chars
}

/// The string made of `chars[from..to]`.
pub fn string_of(chars: &Vec<char>, from: usize, to: usize) -> (s: String)
    requires
        from <= to <= chars.len(),
    ensures
        s@ == chars@.subrange(from as int, to as int),
{
    let mut s = String::new();
    let mut i: usize = from;
    while i < to
        invariant
            from <= i <= to <= chars.len(),
            s@ == chars@.subrange(from as int, i as int),
        decreases to - i,
    {
        s.push(chars[i]);
        i += 1;
    }
    s
}

/// Whether `pattern` stands in `chars` at index `at`.
pub fn matches_at(chars: &Vec<char>, pattern: &Vec<char>, at: usize) -> (found: bool)
    ensures
        found == occurs_at(chars@, pattern@, at as int),
{
    let n = chars.len();
    let m = pattern.len();
    if at > n || m > n - at {
        return false;
    }
    let mut k: usize = 0;
    while k < m
        invariant
            at + m <= n,
            n == chars.len(),
            m == pattern.len(),
            k <= m,
            chars@.subrange(at as int, at + k) == pattern@.take(k as int),
        decreases m - k,
    {
        if chars[at + k] != pattern[k] {
            proof {
                let window = chars@.subrange(at as int, at + m);
                assert(window[k as int] != pattern@[k as int]);
            }
            return false;
        }
        proof {
            assert(chars@.subrange(at as int, at + k + 1) == chars@.subrange(
                at as int,
                at + k,
            ).push(chars@[at + k]));
            assert(pattern@.take(k + 1) == pattern@.take(k as int).push(pattern@[k as int]));
        }
        k += 1;
    }
    proof {
        assert(pattern@.take(m as int) == pattern@);
    }
    true
}

/// The first index at which `pattern` stands in `chars`, if there is one.
pub fn find_first(chars: &Vec<char>, pattern: &Vec<char>) -> (found: Option<usize>)
    ensures
        match found {
            Some(at) => is_first_occurrence(chars@, pattern@, at as int),
            None => !occurs_in(chars@, pattern@),
        },
{
    let n = chars.len();
    let mut at: usize = 0;
    loop
        invariant
            n == chars.len(),
            at <= n,
            forall|earlier: int| 0 <= earlier < at ==> !occurs_at(chars@, pattern@, earlier),
        decreases n - at,
    {
        if matches_at(chars, pattern, at) {
            return Some(at);
        }
        if at == n {
            return None;
        }
        at += 1;
    }
}

/// The index at which the line that starts at `start` ends: that of its
/// line feed, or the length of `chars`.
pub fn scan_line(chars: &Vec<char>, start: usize) -> (end: usize)
    requires
        start <= chars.len(),
    ensures
        start <= end <= chars.len(),
        end == start + line_end(chars@.skip(start as int)),
{
    let mut end: usize = start;
    while end < chars.len() && chars[end] != '\n'
        invariant
            start <= end <= chars.len(),
            forall|i: int| start <= i < end ==> chars@[i] != '\n',
        decreases chars.len() - end,
    {
        end += 1;
    }
    proof {
        lemma_line_end_is(chars@.skip(start as int), end - start);
    }
    end
}

/// The string of the line `chars[start..end]`, which a line feed at
/// `end` closes: without the carriage return before that line feed.
fn closed_line(chars: &Vec<char>, start: usize, end: usize) -> (line: String)
    requires
        start <= end <= chars.len(),
    ensures
        line@ == strip_cr(chars@.subrange(start as int, end as int)),
{
    if end > start && chars[end - 1] == '\r' {
        proof {
            let whole = chars@.subrange(start as int, end as int);
            assert(whole.drop_last() == chars@.subrange(start as int, end - 1));
        }
        string_of(chars, start, end - 1)
    } else {
        string_of(chars, start, end)
    }
}

/// The first line of `text`, if it has one.
pub fn read_first_line(text: &str) -> (line: Option<String>)
    ensures
        match line {
            Some(l) => text@.len() > 0 && l@ == first_line(text@),
            None => text@.len() == 0,
        },
{
    let chars = chars_of(text);
    if chars.len() == 0 {
        return None;
    }
    let end = scan_line(&chars, 0);
    proof {
        assert(chars@.skip(0) == chars@);
    }
    if end < chars.len() {
        Some(closed_line(&chars, 0, end))
    } else {
        Some(string_of(&chars, 0, end))
    }
}

/// The lines of `text`.
pub fn split_lines(text: &str) -> (lines: Vec<String>)
    ensures
        lines.deep_view() == lines_of(text@),
{
    let chars = chars_of(text);
    let n = chars.len();
    let mut lines: Vec<String> = Vec::new();
    let mut start: usize = 0;
    proof {
        assert(lines.deep_view() == Seq::<Seq<char>>::empty());
        assert(chars@.skip(0) == chars@);
    }
    while start < n
        invariant
            n == chars.len(),
            chars@ == text@,
            start <= n,
            lines.deep_view() + lines_of(chars@.skip(start as int)) == lines_of(chars@),
        decreases n - start,
    {
        let end = scan_line(&chars, start);
        let ghost rest = chars@.skip(start as int);
        let ghost before = lines.deep_view();
        if end < n {
            let line = closed_line(&chars, start, end);
            lines.push(line);
            proof {
                assert(rest.take(end - start) == chars@.subrange(start as int, end as int));
                assert(rest.skip(end - start + 1) == chars@.skip(end + 1));
                assert(lines.deep_view() == before + seq![first_line(rest)]);
            }
            start = end + 1;
        } else {
            let line = string_of(&chars, start, end);
            lines.push(line);
            proof {
                assert(rest == chars@.subrange(start as int, end as int));
                assert(lines.deep_view() == before + seq![rest]);
                assert(chars@.skip(n as int).len() == 0);
            }
            start = n;
        }
    }
    proof {
        assert(chars@.skip(n as int).len() == 0);
    }
    lines
}

} // verus!
