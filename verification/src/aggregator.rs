//! Gathering the notes of a directory into one document, newest first.

use crate::date::Date;
use crate::header::header_of;
use crate::header::parse_header;
use crate::header::Header;
use crate::names::eligible_name;
use crate::names::is_eligible_name;
use crate::text::first_line;
use crate::text::read_first_line;
use vstd::prelude::*;

verus! {

/// A file of the source directory: its name and what it holds.
#[derive(Debug)]
pub struct SourceFile {
    pub name: String,
    pub content: String,
}

/// A `SourceFile` with its strings as sequences of characters.
pub struct SourceFileView {
    pub name: Seq<char>,
    pub content: Seq<char>,
}

impl View for SourceFile {
    type V = SourceFileView;

    open spec fn view(&self) -> SourceFileView {
        SourceFileView { name: self.name@, content: self.content@ }
    }
}

impl DeepView for SourceFile {
    type V = SourceFileView;

    open spec fn deep_view(&self) -> SourceFileView {
        self@
    }
}

/// A dated note: the title and the date that its header line gives, and
/// the whole text of the note, header line included.
#[derive(Debug)]
pub struct Entry {
    pub title: String,
    pub date: Date,
    pub content: String,
}

/// An `Entry` with its strings as sequences of characters.
pub struct EntryView {
    pub title: Seq<char>,
    pub date: Date,
    pub content: Seq<char>,
}

impl View for Entry {
    type V = EntryView;

    open spec fn view(&self) -> EntryView {
        EntryView { title: self.title@, date: self.date, content: self.content@ }
    }
}

impl DeepView for Entry {
    type V = EntryView;

    open spec fn deep_view(&self) -> EntryView {
        self@
    }
}

/// What separates two entries of a document, and follows the last: the
/// line feed that ends a line, and one empty line.
pub open spec fn gap() -> Seq<char> {
    seq!['\n', '\n']
}

/// The entry that a note with the text `content` makes: one only where
/// its first line is a header line whose title starts with a date.
pub open spec fn entry_of(content: Seq<char>) -> Option<EntryView> {
    if content.len() == 0 {
        None
    } else {
        match header_of(first_line(content)) {
            Some(header) => match header.date {
                Some(date) => Some(EntryView { title: header.title, date, content }),
                None => None,
            },
            None => None,
        }
    }
}

/// The entry that `file` gives to the document, if it gives one: its
/// name must be eligible and its text must make an entry.
pub open spec fn entry_in(file: SourceFileView) -> Option<EntryView> {
    if eligible_name(file.name) {
        entry_of(file.content)
    } else {
        None
    }
}

/// The entries that `files` give, in the order of the files.
pub open spec fn selected(files: Seq<SourceFileView>) -> Seq<EntryView> {
    files.filter_map(|file: SourceFileView| entry_in(file))
}

/// `sorted` with `entry` put behind every entry that is not older than
/// it.
pub open spec fn placed(sorted: Seq<EntryView>, entry: EntryView) -> Seq<EntryView>
    decreases sorted.len(),
{
    if sorted.len() > 0 && sorted.last().date.is_before(entry.date) {
        placed(sorted.drop_last(), entry).push(sorted.last())
    } else {
        sorted.push(entry)
    }
}

/// `entries` from the newest date to the oldest, those of one date in
/// the order in which they stand in `entries`.
pub open spec fn newest_first(entries: Seq<EntryView>) -> Seq<EntryView>
    decreases entries.len(),
{
    if entries.len() == 0 {
        entries
    } else {
        placed(newest_first(entries.drop_last()), entries.last())
    }
}

/// The document that holds `entries` in their order: the text of each,
/// followed by the gap.
pub open spec fn rendered(entries: Seq<EntryView>) -> Seq<char>
    decreases entries.len(),
{
    if entries.len() == 0 {
        Seq::empty()
    } else {
        rendered(entries.drop_last()) + entries.last().content + gap()
    }
}

/// The document that `files` aggregate to.
pub open spec fn document_of(files: Seq<SourceFileView>) -> Seq<char> {
    rendered(newest_first(selected(files)))
}

/// `placed` puts the entry at the index behind which every entry is
/// older than it, and before which the nearest is not.
pub proof fn lemma_placed_at(sorted: Seq<EntryView>, entry: EntryView, at: int)
    requires
        0 <= at <= sorted.len(),
        forall|k: int| at <= k < sorted.len() ==> sorted[k].date.is_before(entry.date),
        at > 0 ==> !sorted[at - 1].date.is_before(entry.date),
    ensures
        placed(sorted, entry) == sorted.insert(at, entry),
    decreases sorted.len() - at,
{
    if at == sorted.len() {
        assert(sorted.insert(at, entry) == sorted.push(entry));
    } else {
        let front = sorted.drop_last();
        lemma_placed_at(front, entry, at);
        assert(front.insert(at, entry).push(sorted.last()) == sorted.insert(at, entry));
    }
}

/// No entry of `entries` stands before a newer one.
pub open spec fn is_newest_first(entries: Seq<EntryView>) -> bool {
    forall|i: int, j: int|
        0 <= i < j < entries.len() ==> !(#[trigger] entries[i]).date.is_before(
            (#[trigger] entries[j]).date,
        )
}

/// The test that an entry is of the day `date`.
pub open spec fn dated(date: Date) -> spec_fn(EntryView) -> bool {
    |entry: EntryView| entry.date == date
}

/// The index at which `placed` puts `entry` in `sorted`.
pub open spec fn slot(sorted: Seq<EntryView>, entry: EntryView) -> int
    decreases sorted.len(),
{
    if sorted.len() > 0 && sorted.last().date.is_before(entry.date) {
        slot(sorted.drop_last(), entry)
    } else {
        sorted.len() as int
    }
}

/// `placed` inserts the entry at its slot: every entry behind the slot
/// is older than it, and the one before the slot is not.
pub proof fn lemma_slot(sorted: Seq<EntryView>, entry: EntryView)
    ensures
        0 <= slot(sorted, entry) <= sorted.len(),
        forall|k: int|
            slot(sorted, entry) <= k < sorted.len() ==> sorted[k].date.is_before(entry.date),
        slot(sorted, entry) > 0 ==> !sorted[slot(sorted, entry) - 1].date.is_before(entry.date),
        placed(sorted, entry) == sorted.insert(slot(sorted, entry), entry),
    decreases sorted.len(),
{
    if sorted.len() > 0 && sorted.last().date.is_before(entry.date) {
        let front = sorted.drop_last();
        lemma_slot(front, entry);
        assert forall|k: int| slot(sorted, entry) <= k < sorted.len() implies sorted[k].date.is_before(
            entry.date,
        ) by {
            if k < front.len() {
                assert(sorted[k] == front[k]);
            }
        }
        if slot(sorted, entry) > 0 {
            assert(sorted[slot(sorted, entry) - 1] == front[slot(front, entry) - 1]);
        }
    }
    lemma_placed_at(sorted, entry, slot(sorted, entry));
}

/// Placing an entry in entries that stand newest first leaves them
/// newest first.
pub proof fn lemma_placed_is_newest_first(sorted: Seq<EntryView>, entry: EntryView)
    requires
        is_newest_first(sorted),
    ensures
        is_newest_first(placed(sorted, entry)),
{
    lemma_slot(sorted, entry);
    let at = slot(sorted, entry);
    let out = sorted.insert(at, entry);
    assert forall|i: int, j: int| 0 <= i < j < out.len() implies !(#[trigger] out[i]).date.is_before(
        (#[trigger] out[j]).date,
    ) by {
        if j < at {
            assert(out[i] == sorted[i] && out[j] == sorted[j]);
        } else if j == at {
            assert(out[i] == sorted[i] && out[j] == entry);
            if i < at - 1 {
                assert(!sorted[i].date.is_before(sorted[at - 1].date));
            }
        } else if i < at {
            assert(out[i] == sorted[i] && out[j] == sorted[j - 1]);
        } else if i == at {
            assert(out[i] == entry && out[j] == sorted[j - 1]);
        } else {
            assert(out[i] == sorted[i - 1] && out[j] == sorted[j - 1]);
        }
    }
}

/// Placing an entry adds it behind the entries of its own day, and
/// leaves the entries of every other day as they were.
pub proof fn lemma_placed_keeps_days(sorted: Seq<EntryView>, entry: EntryView, day: Date)
    ensures
        placed(sorted, entry).filter(dated(day)) == if entry.date == day {
            sorted.filter(dated(day)).push(entry)
        } else {
            sorted.filter(dated(day))
        },
{
    lemma_slot(sorted, entry);
    let at = slot(sorted, entry);
    let test = dated(day);
    let front = sorted.subrange(0, at);
    let back = sorted.subrange(at, sorted.len() as int);
    assert(front + back == sorted);
    Seq::filter_distributes_over_add(front, back, test);
    Seq::filter_distributes_over_add(front.push(entry), back, test);
    front.lemma_filter_push(entry, test);
    if entry.date == day {
        assert forall|k: int| 0 <= k < back.len() implies !test(#[trigger] back[k]) by {
            assert(back[k] == sorted[at + k]);
        }
        assert(back.all(|x: EntryView| !test(x)));
        back.lemma_all_neg_filter_empty(test);
        assert(back.filter(test) == Seq::<EntryView>::empty());
        assert(front.filter(test).push(entry) + Seq::<EntryView>::empty() == front.filter(
            test,
        ).push(entry));
        assert(front.filter(test) + Seq::<EntryView>::empty() == front.filter(test));
    }
}

/// Placing an entry adds it to the entries and takes none away.
pub proof fn lemma_placed_permutes(sorted: Seq<EntryView>, entry: EntryView)
    ensures
        placed(sorted, entry).to_multiset() == sorted.to_multiset().insert(entry),
    decreases sorted.len(),
{
    broadcast use vstd::seq_lib::to_multiset_build;

    if sorted.len() > 0 && sorted.last().date.is_before(entry.date) {
        let front = sorted.drop_last();
        lemma_placed_permutes(front, entry);
        assert(front.push(sorted.last()) == sorted);
        assert(front.to_multiset().insert(entry).insert(sorted.last()) == front.to_multiset().insert(
            sorted.last(),
        ).insert(entry));
    }
}

/// `newest_first` puts no entry before a newer one.
pub proof fn lemma_newest_first_is_sorted(entries: Seq<EntryView>)
    ensures
        is_newest_first(newest_first(entries)),
    decreases entries.len(),
{
    if entries.len() > 0 {
        lemma_newest_first_is_sorted(entries.drop_last());
        lemma_placed_is_newest_first(newest_first(entries.drop_last()), entries.last());
    }
}

/// `newest_first` keeps the entries of each day in the order in which
/// they came.
pub proof fn lemma_newest_first_is_stable(entries: Seq<EntryView>, day: Date)
    ensures
        newest_first(entries).filter(dated(day)) == entries.filter(dated(day)),
    decreases entries.len(),
{
    if entries.len() > 0 {
        let front = entries.drop_last();
        lemma_newest_first_is_stable(front, day);
        lemma_placed_keeps_days(newest_first(front), entries.last(), day);
        front.lemma_filter_push(entries.last(), dated(day));
        assert(front.push(entries.last()) == entries);
    } else {
        assert(newest_first(entries) == entries);
    }
}

/// `newest_first` gives back the entries it was given, each as often as
/// it came.
pub proof fn lemma_newest_first_permutes(entries: Seq<EntryView>)
    ensures
        newest_first(entries).to_multiset() == entries.to_multiset(),
        newest_first(entries).len() == entries.len(),
        forall|entry: EntryView| newest_first(entries).contains(entry) == entries.contains(entry),
    decreases entries.len(),
{
    broadcast use vstd::seq_lib::to_multiset_build;

    if entries.len() > 0 {
        let front = entries.drop_last();
        lemma_newest_first_permutes(front);
        lemma_placed_permutes(newest_first(front), entries.last());
        assert(front.push(entries.last()) == entries);
    }
    let sorted = newest_first(entries);
    sorted.to_multiset_ensures();
    entries.to_multiset_ensures();
    assert forall|entry: EntryView| sorted.contains(entry) == entries.contains(entry) by {
        assert(sorted.contains(entry) <==> sorted.to_multiset().count(entry) > 0);
        assert(entries.contains(entry) <==> entries.to_multiset().count(entry) > 0);
    }
}

/// The index in the document at which the text of the entry `k` of
/// `entries` starts.
pub open spec fn offset_of(entries: Seq<EntryView>, k: int) -> int {
    rendered(entries.take(k)).len() as int
}

/// The document of entries and further entries is the document of the
/// first with that of the others behind it.
pub proof fn lemma_rendered_concat(head: Seq<EntryView>, tail: Seq<EntryView>)
    ensures
        rendered(head + tail) == rendered(head) + rendered(tail),
    decreases tail.len(),
{
    if tail.len() == 0 {
        assert(head + tail == head);
        assert(rendered(head) + rendered(tail) == rendered(head));
    } else {
        let all = head + tail;
        assert(all.drop_last() == head + tail.drop_last());
        assert(all.last() == tail.last());
        lemma_rendered_concat(head, tail.drop_last());
        assert(rendered(head) + rendered(tail.drop_last()) + tail.last().content + gap()
            == rendered(head) + (rendered(tail.drop_last()) + tail.last().content + gap()));
    }
}

/// The document holds the text of each entry at the entry's offset,
/// with the gap behind it, and the next entry starts behind that gap.
pub proof fn lemma_rendered_holds_entry(entries: Seq<EntryView>, k: int)
    requires
        0 <= k < entries.len(),
    ensures
        offset_of(entries, k + 1) == offset_of(entries, k) + entries[k].content.len() + gap().len(),
        offset_of(entries, k + 1) <= rendered(entries).len(),
        rendered(entries).subrange(offset_of(entries, k), offset_of(entries, k + 1))
            == entries[k].content + gap(),
{
    let upto = entries.take(k + 1);
    assert(upto.drop_last() == entries.take(k));
    assert(upto.last() == entries[k]);
    assert(upto + entries.skip(k + 1) == entries);
    lemma_rendered_concat(upto, entries.skip(k + 1));
    let doc = rendered(entries);
    assert(doc.subrange(offset_of(entries, k), offset_of(entries, k + 1)) == entries[k].content
        + gap());
}

/// Offsets grow with the index.
pub proof fn lemma_offsets_grow(entries: Seq<EntryView>, i: int, j: int)
    requires
        0 <= i <= j <= entries.len(),
    ensures
        offset_of(entries, i) <= offset_of(entries, j),
    decreases j - i,
{
    if i < j {
        lemma_offsets_grow(entries, i, j - 1);
        lemma_rendered_holds_entry(entries, j - 1);
    }
}

/// Of two entries of different days, the newer stands first in the
/// document: its text and gap end before the text of the older starts.
pub proof fn lemma_newer_entry_stands_first(entries: Seq<EntryView>, newer: int, older: int)
    requires
        0 <= newer < entries.len(),
        0 <= older < entries.len(),
        newest_first(entries)[older].date.is_before(newest_first(entries)[newer].date),
    ensures
        newer < older,
        offset_of(newest_first(entries), newer) + newest_first(entries)[newer].content.len()
            + gap().len() <= offset_of(newest_first(entries), older),
{
    let sorted = newest_first(entries);
    lemma_newest_first_permutes(entries);
    lemma_newest_first_is_sorted(entries);
    if older < newer {
        assert(!sorted[older].date.is_before(sorted[newer].date));
    }
    lemma_rendered_holds_entry(sorted, newer);
    lemma_offsets_grow(sorted, newer + 1, older);
}

/// The entries of files and further files are those of the first with
/// those of the others behind them.
pub proof fn lemma_selected_concat(head: Seq<SourceFileView>, tail: Seq<SourceFileView>)
    ensures
        selected(head + tail) == selected(head) + selected(tail),
    decreases tail.len(),
{
    if tail.len() == 0 {
        assert(head + tail == head);
        assert(selected(head) + selected(tail) == selected(head));
    } else {
        let all = head + tail;
        assert(all.drop_last() == head + tail.drop_last());
        assert(all.last() == tail.last());
        lemma_selected_concat(head, tail.drop_last());
        match entry_in(tail.last()) {
            Some(entry) => {
                assert(selected(head) + selected(tail.drop_last()) + seq![entry] == selected(head)
                    + (selected(tail.drop_last()) + seq![entry]));
            },
            None => {},
        }
    }
}

/// A file that gives no entry changes nothing: with it among the files,
/// wherever it stands, the entries, their number and the document are
/// what they are without it.
pub proof fn lemma_file_without_entry_is_left_out(
    files: Seq<SourceFileView>,
    at: int,
    file: SourceFileView,
)
    requires
        0 <= at <= files.len(),
        entry_in(file) is None,
    ensures
        selected(files.insert(at, file)) == selected(files),
        document_of(files.insert(at, file)) == document_of(files),
{
    let front = files.subrange(0, at);
    let back = files.subrange(at, files.len() as int);
    assert(front + back == files);
    assert(front.push(file) == front + seq![file]);
    lemma_selected_concat(front, back);
    lemma_selected_concat(front + seq![file], back);
    lemma_selected_concat(front, seq![file]);
    Seq::lemma_filter_map_singleton(file, |f: SourceFileView| entry_in(f));
    assert(selected(front) + Seq::<EntryView>::empty() == selected(front));
}

/// A file whose name is not eligible is left out of the document,
/// whatever it holds.
pub proof fn lemma_ineligible_file_is_left_out(
    files: Seq<SourceFileView>,
    at: int,
    file: SourceFileView,
)
    requires
        0 <= at <= files.len(),
        !eligible_name(file.name),
    ensures
        selected(files.insert(at, file)) == selected(files),
        document_of(files.insert(at, file)) == document_of(files),
{
    lemma_file_without_entry_is_left_out(files, at, file);
}

/// A file whose first line gives no date is left out of the document:
/// it adds no character to it and does not count.
pub proof fn lemma_undated_file_is_left_out(
    files: Seq<SourceFileView>,
    at: int,
    file: SourceFileView,
)
    requires
        0 <= at <= files.len(),
        entry_of(file.content) is None,
    ensures
        selected(files.insert(at, file)) == selected(files),
        document_of(files.insert(at, file)) == document_of(files),
{
    lemma_file_without_entry_is_left_out(files, at, file);
}

impl Entry {
    /// The entry with the title and date of `header` and the text
    /// `content`, where `header` has a date.
    pub fn from_header(header: Header, content: String) -> (entry: Option<Entry>)
        ensures
            match entry {
                Some(e) => header@.date == Some(e.date) && e@ == (EntryView {
                    title: header@.title,
                    date: e.date,
                    content: content@,
                }),
                None => header@.date is None,
            },
    {
        match header.date {
            Some(date) => Some(Entry { title: header.title, date, content }),
            None => None,
        }
    }
}

/// The entry that a note with the text `content` makes, if it makes one.
pub fn read_entry(content: String) -> (entry: Option<Entry>)
    ensures
        match entry {
            Some(e) => entry_of(content@) == Some(e@),
            None => entry_of(content@) is None,
        },
{
    match read_first_line(content.as_str()) {
        Some(line) => match parse_header(line.as_str()) {
            Some(header) => Entry::from_header(header, content),
            None => None,
        },
        None => None,
    }
}

/// The entry that `file` gives to the document, if it gives one.
pub fn select_entry(file: SourceFile) -> (entry: Option<Entry>)
    ensures
        match entry {
            Some(e) => entry_in(file@) == Some(e@),
            None => entry_in(file@) is None,
        },
{
    if is_eligible_name(file.name.as_str()) {
        read_entry(file.content)
    } else {
        None
    }
}

/// The entries that `files` give, in the order of the files.
pub fn select_entries(files: Vec<SourceFile>) -> (entries: Vec<Entry>)
    ensures
        entries.deep_view() == selected(files.deep_view()),
{
    let ghost all = files.deep_view();
    let ghost pick = |file: SourceFileView| entry_in(file);
    let mut entries: Vec<Entry> = Vec::new();
    proof {
        assert(all.take(0).filter_map(pick) == Seq::<EntryView>::empty());
        assert(entries.deep_view() == Seq::<EntryView>::empty());
    }
    for file in it: files
        invariant
            it.seq().len() == all.len(),
            forall|k: int| 0 <= k < all.len() ==> it.seq()[k]@ == all[k],
            forall|f: SourceFileView| #[trigger] pick(f) == entry_in(f),
            entries.deep_view() == all.take(it.index() as int).filter_map(pick),
    {
        let ghost before = entries.deep_view();
        let ghost i = it.index() as int;
        proof {
            all.lemma_filter_map_take_succ(pick, i);
            assert(file@ == all[i]);
            assert(pick(all[i]) == entry_in(file@));
        }
        match select_entry(file) {
            Some(entry) => {
                entries.push(entry);
                proof {
                    assert(entries.deep_view() == before + seq![entry@]);
                }
            },
            None => {
                assert(before + Seq::<EntryView>::empty() == before);
            },
        }
    }
    proof {
        assert(all.take(all.len() as int) == all);
    }
    entries
}

/// `entries` from the newest date to the oldest, those of one date in
/// the order in which they came.
pub fn sort_newest_first(entries: Vec<Entry>) -> (sorted: Vec<Entry>)
    ensures
        sorted.deep_view() == newest_first(entries.deep_view()),
{
    let ghost all = entries.deep_view();
    let mut sorted: Vec<Entry> = Vec::new();
    proof {
        assert(sorted.deep_view() == newest_first(all.take(0)));
    }
    for entry in it: entries
        invariant
            it.seq().len() == all.len(),
            forall|k: int| 0 <= k < all.len() ==> it.seq()[k]@ == all[k],
            sorted.deep_view() == newest_first(all.take(it.index() as int)),
    {
        let ghost before = sorted.deep_view();
        let ghost i = it.index() as int;
        let mut at: usize = sorted.len();
        while at > 0 && sorted[at - 1].date.precedes(&entry.date)
            invariant
                at <= sorted.len(),
                sorted.deep_view() == before,
                forall|k: int| at <= k < before.len() ==> before[k].date.is_before(entry.date),
            decreases at,
        {
            at -= 1;
        }
        sorted.insert(at, entry);
        proof {
            lemma_placed_at(before, entry@, at as int);
            assert(sorted.deep_view() == before.insert(at as int, entry@));
            assert(all.take(i + 1).drop_last() == all.take(i));
        }
    }
    proof {
        assert(all.take(all.len() as int) == all);
    }
    sorted
}

/// The document that holds `entries` in their order.
pub fn render(entries: &Vec<Entry>) -> (document: String)
    ensures
        document@ == rendered(entries.deep_view()),
{
    let ghost all = entries.deep_view();
    let mut document = String::new();
    let mut i: usize = 0;
    proof {
        assert(all.take(0) == Seq::<EntryView>::empty());
    }
    while i < entries.len()
        invariant
            i <= entries.len(),
            all == entries.deep_view(),
            document@ == rendered(all.take(i as int)),
        decreases entries.len() - i,
    {
        document.append(entries[i].content.as_str());
        document.push('\n');
        document.push('\n');
        proof {
            assert(all.take(i + 1).drop_last() == all.take(i as int));
            assert(document@ == rendered(all.take(i as int)) + all[i as int].content + gap());
        }
        i += 1;
    }
    proof {
        assert(all.take(entries.len() as int) == all);
    }
    document
}

/// What aggregating a directory gives: the document, and the number of
/// entries in it.
#[derive(Debug)]
pub struct Aggregate {
    pub document: String,
    pub count: usize,
}

/// Aggregates `files`: the entries that they give, newest first, as one
/// document, and how many there are.
///
/// Entries of one date keep the order in which their files stand in
/// `files`, whatever order the directory was listed in.
pub fn aggregate(files: Vec<SourceFile>) -> (result: Aggregate)
    ensures
        result.document@ == document_of(files.deep_view()),
        result.count == selected(files.deep_view()).len(),
{
    let entries = select_entries(files);
    let count = entries.len();
    let sorted = sort_newest_first(entries);
    let document = render(&sorted);
    Aggregate { document, count }
}

} // verus!
