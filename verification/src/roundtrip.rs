//! Splitting an aggregated document gives the notes back.

use crate::aggregator::document_of;
use crate::aggregator::entry_in;
use crate::aggregator::entry_of;
use crate::aggregator::gap;
use crate::aggregator::lemma_newest_first_permutes;
use crate::aggregator::newest_first;
use crate::aggregator::rendered;
use crate::aggregator::selected;
use crate::aggregator::EntryView;
use crate::aggregator::SourceFileView;
use crate::header::is_header;
use crate::header::lemma_first_line_is_header;
use crate::header::lemma_later_header_follows_newline;
use crate::header::opening;
use crate::splitter::lemma_one_header_one_post;
use crate::splitter::lemma_posts_of_concat;
use crate::splitter::posts_of;
use crate::splitter::split_text;
use crate::splitter::PostView;
use crate::text::crlf;
use crate::text::first_line;
use crate::text::is_complete;
use crate::text::lemma_join_lines_of;
use crate::text::lemma_line_end;
use crate::text::lemma_line_end_is;
use crate::text::lemma_lines_of_concat;
use crate::text::lemma_lines_start_with_first_line;
use crate::text::line_end;
use crate::text::lines_of;
use crate::text::occurs_at;
use crate::text::occurs_in;
use vstd::prelude::*;

verus! {

/// The text of a note comes back from a document as it went in: none of
/// its lines but the first can be taken for a header line, and no line
/// of it ends in a carriage return, which splitting would drop.
pub open spec fn splits_back(content: Seq<char>) -> bool {
    &&& !occurs_in(content, opening())
    &&& !occurs_in(content + gap(), crlf())
}

/// The post that an entry comes back as: under its title, its text with
/// the gap behind it.
pub open spec fn restored(entry: EntryView) -> PostView {
    PostView { title: entry.title, content: entry.content + gap() }
}

/// The posts that entries come back as.
pub open spec fn all_restored(entries: Seq<EntryView>) -> Seq<PostView> {
    entries.map_values(|entry: EntryView| restored(entry))
}

/// A document ends with a line feed, unless it is empty.
pub proof fn lemma_rendered_is_complete(entries: Seq<EntryView>)
    ensures
        is_complete(rendered(entries)),
{
    if entries.len() > 0 {
        let document = rendered(entries);
        assert(document.last() == gap()[1]);
    }
}

/// The text of an entry, with the gap behind it, splits into the one
/// post that the entry comes back as.
pub proof fn lemma_entry_splits_back(entry: EntryView)
    requires
        entry_of(entry.content) == Some(entry),
        splits_back(entry.content),
    ensures
        lines_of(entry.content + gap()).len() > 0,
        is_header(lines_of(entry.content + gap())[0]),
        posts_of(lines_of(entry.content + gap())) == seq![restored(entry)],
{
    let content = entry.content;
    let part = content + gap();
    let lines = lines_of(part);
    let n = content.len() as int;
    assert(part.last() == gap()[1]);
    assert(part[n] == gap()[0]);

    // The first line is what it was before the gap came behind the text.
    lemma_line_end(content);
    let end = line_end(content);
    assert forall|i: int| 0 <= i < end implies part[i] != '\n' by {
        assert(part[i] == content[i]);
    }
    if end < n {
        assert(part[end] == content[end]);
    }
    lemma_line_end_is(part, end);
    assert(part.take(end) == content.take(end));
    if end == n && n > 0 && content[n - 1] == '\r' {
        assert(part.subrange(n - 1, n - 1 + 2) == crlf());
        assert(occurs_at(part, crlf(), n - 1));
    }
    assert(content.take(n) == content);
    assert(first_line(part) == first_line(content));
    lemma_lines_start_with_first_line(part);
    lemma_first_line_is_header(content);

    // No line behind it is a header line.
    assert forall|k: int| 1 <= k < lines.len() implies !is_header(lines[k]) by {
        if is_header(lines[k]) {
            lemma_later_header_follows_newline(part, k);
            let at = choose|at: int| occurs_at(part, opening(), at);
            let found = part.subrange(at, at + 3);
            assert(found[1] == part[at + 1] && found[2] == part[at + 2]);
            assert(opening()[1] == '#' && opening()[2] == ' ');
            if at + 3 <= n {
                assert(content.subrange(at, at + 3) == found);
                assert(occurs_at(content, opening(), at));
            } else if at + 2 == n {
                assert(part[at + 2] == gap()[0]);
            } else {
                assert(part[at + 1] == gap()[at + 1 - n]);
            }
        }
    }
    lemma_join_lines_of(part);
    lemma_one_header_one_post(lines);
}

/// Splitting the document of entries gives one post for each entry, in
/// the order of the entries: under the entry's title, its text with the
/// gap behind it.
pub proof fn lemma_split_rendered(entries: Seq<EntryView>)
    requires
        forall|k: int|
            0 <= k < entries.len() ==> entry_of(#[trigger] entries[k].content) == Some(
                entries[k],
            ) && splits_back(entries[k].content),
    ensures
        split_text(rendered(entries)) == all_restored(entries),
    decreases entries.len(),
{
    if entries.len() == 0 {
        assert(all_restored(entries) == Seq::<PostView>::empty());
    } else {
        let front = entries.drop_last();
        let last = entries.last();
        let part = last.content + gap();
        assert forall|k: int| 0 <= k < front.len() implies entry_of(
            #[trigger] front[k].content,
        ) == Some(front[k]) && splits_back(front[k].content) by {
            assert(front[k] == entries[k]);
        }
        lemma_split_rendered(front);
        assert(entry_of(entries[entries.len() - 1].content) == Some(last));
        lemma_entry_splits_back(last);
        lemma_rendered_is_complete(front);
        assert(rendered(entries) == rendered(front) + part);
        lemma_lines_of_concat(rendered(front), part);
        lemma_posts_of_concat(lines_of(rendered(front)), lines_of(part));
        assert(all_restored(entries) == all_restored(front) + seq![restored(last)]);
    }
}

/// Every entry that files give is the entry of its own text, and that
/// text is the text of one of the files that give an entry.
pub proof fn lemma_selected_are_read(files: Seq<SourceFileView>, k: int)
    requires
        0 <= k < selected(files).len(),
    ensures
        entry_of(selected(files)[k].content) == Some(selected(files)[k]),
        exists|i: int|
            0 <= i < files.len() && entry_in(#[trigger] files[i]) == Some(selected(files)[k]),
    decreases files.len(),
{
    let front = files.drop_last();
    let last = files.last();
    if k < selected(front).len() {
        lemma_selected_are_read(front, k);
        let i = choose|i: int|
            0 <= i < front.len() && entry_in(#[trigger] front[i]) == Some(selected(front)[k]);
        assert(files[i] == front[i]);
    } else {
        assert(entry_in(files[files.len() - 1]) == Some(selected(files)[k]));
    }
}

/// Aggregating files and splitting the document gives one post for each
/// entry, newest first: under the entry's title, the text of the
/// entry's file, with nothing changed but the gap behind it.
///
/// This holds where the text of each file that gives an entry splits
/// back.
pub proof fn lemma_round_trip(files: Seq<SourceFileView>)
    requires
        forall|i: int|
            0 <= i < files.len() && entry_in(#[trigger] files[i]) is Some ==> splits_back(
                files[i].content,
            ),
    ensures
        split_text(document_of(files)) == all_restored(newest_first(selected(files))),
        split_text(document_of(files)).len() == selected(files).len(),
{
    let entries = selected(files);
    let sorted = newest_first(entries);
    lemma_newest_first_permutes(entries);
    assert forall|k: int| 0 <= k < sorted.len() implies entry_of(
        #[trigger] sorted[k].content,
    ) == Some(sorted[k]) && splits_back(sorted[k].content) by {
        assert(sorted.contains(sorted[k]));
        assert(entries.contains(sorted[k]));
        let j = choose|j: int| 0 <= j < entries.len() && entries[j] == sorted[k];
        lemma_selected_are_read(files, j);
        let i = choose|i: int|
            0 <= i < files.len() && entry_in(#[trigger] files[i]) == Some(entries[j]);
        assert(files[i].content == entries[j].content);
    }
    lemma_split_rendered(sorted);
}

} // verus!
