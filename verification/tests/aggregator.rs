use devlog::aggregator::aggregate;
use devlog::aggregator::read_entry;
use devlog::aggregator::render;
use devlog::aggregator::select_entries;
use devlog::aggregator::select_entry;
use devlog::aggregator::sort_newest_first;
use devlog::aggregator::Entry;
use devlog::aggregator::SourceFile;
use devlog::date::Date;
use devlog::header::parse_header;

fn file(name: &str, content: &str) -> SourceFile {
    SourceFile { name: String::from(name), content: String::from(content) }
}

fn entry(title: &str, year: i32, month: u32, day: u32) -> Entry {
    Entry {
        title: String::from(title),
        date: Date { year, month, day },
        content: format!("# {}\n", title),
    }
}

fn titles(entries: &[Entry]) -> Vec<String> {
    entries.iter().map(|e| e.title.clone()).collect()
}

#[test]
fn an_entry_takes_title_and_date_from_its_header() {
    let header = parse_header("# 01.15.2024 - A").unwrap();
    let made = Entry::from_header(header, String::from("# 01.15.2024 - A\nHello\n")).unwrap();
    assert_eq!(made.title, "01.15.2024 - A");
    assert_eq!(made.date, Date { year: 2024, month: 1, day: 15 });
    assert_eq!(made.content, "# 01.15.2024 - A\nHello\n");
}

#[test]
fn a_header_without_date_makes_no_entry() {
    let header = parse_header("# Undated").unwrap();
    assert!(Entry::from_header(header, String::from("# Undated\n")).is_none());
}

#[test]
fn read_entry_goes_by_the_first_line() {
    let made = read_entry(String::from("# 03.04.2021 - C\n# 01.01.2000 - later line\n")).unwrap();
    assert_eq!(made.title, "03.04.2021 - C");
    assert_eq!(made.date, Date { year: 2021, month: 3, day: 4 });
    assert_eq!(made.content, "# 03.04.2021 - C\n# 01.01.2000 - later line\n");
}

#[test]
fn read_entry_skips_what_has_no_dated_header() {
    assert!(read_entry(String::new()).is_none());
    assert!(read_entry(String::from("\n# 01.15.2024 - A\n")).is_none());
    assert!(read_entry(String::from("01.15.2024 - A\n")).is_none());
    assert!(read_entry(String::from("# A - 01.15.2024\n")).is_none());
    assert!(read_entry(String::from("# 01.15.2024\n")).is_none());
    assert!(read_entry(String::from("# 02.30.2024 - no such day\n")).is_none());
    assert!(read_entry(String::from("# Title only\nbody\n")).is_none());
}

#[test]
fn select_entry_needs_an_eligible_name() {
    let content = "# 01.15.2024 - A\nHello\n";
    assert!(select_entry(file("A.md", content)).is_some());
    assert!(select_entry(file(".A.md", content)).is_none());
    assert!(select_entry(file("_A.md", content)).is_none());
    assert!(select_entry(file("A.txt", content)).is_none());
    assert!(select_entry(file("A.md", "Hello\n")).is_none());
}

#[test]
fn select_entries_keeps_the_order_of_the_files() {
    let files = vec![
        file("a.md", "# 01.15.2024 - A\n"),
        file("skip.txt", "# 01.16.2024 - S\n"),
        file("b.md", "# 01.10.2024 - B\n"),
        file("c.md", "# undated\n"),
        file("d.md", "# 01.20.2024 - D\n"),
    ];
    let entries = select_entries(files);
    assert_eq!(titles(&entries), vec!["01.15.2024 - A", "01.10.2024 - B", "01.20.2024 - D"]);
}

#[test]
fn sorting_puts_the_newest_first() {
    let entries = vec![
        entry("b", 2024, 1, 15),
        entry("d", 2023, 12, 31),
        entry("a", 2024, 2, 1),
        entry("c", 2024, 1, 14),
    ];
    let sorted = sort_newest_first(entries);
    assert_eq!(titles(&sorted), vec!["a", "b", "c", "d"]);
}

#[test]
fn sorting_keeps_the_order_within_a_day() {
    let entries = vec![
        entry("old", 2020, 5, 5),
        entry("first", 2024, 1, 15),
        entry("second", 2024, 1, 15),
        entry("new", 2025, 1, 1),
        entry("third", 2024, 1, 15),
    ];
    let sorted = sort_newest_first(entries);
    assert_eq!(titles(&sorted), vec!["new", "first", "second", "third", "old"]);
}

#[test]
fn sorting_nothing_gives_nothing() {
    assert!(sort_newest_first(Vec::new()).is_empty());
}

#[test]
fn sorting_agrees_with_a_stable_sort_by_date() {
    let mut seed: u32 = 7;
    let mut entries = Vec::new();
    let mut expected = Vec::new();
    for i in 0..60 {
        seed = seed.wrapping_mul(1103515245).wrapping_add(12345);
        let year = 2020 + ((seed >> 16) % 3) as i32;
        let month = 1 + (seed >> 8) % 3;
        let day = 1 + (seed >> 4) % 3;
        entries.push(entry(&format!("e{}", i), year, month, day));
        expected.push((year, month, day, format!("e{}", i)));
    }
    expected.sort_by(|a, b| (b.0, b.1, b.2).cmp(&(a.0, a.1, a.2)));
    let sorted = sort_newest_first(entries);
    let expected_titles: Vec<String> = expected.into_iter().map(|e| e.3).collect();
    assert_eq!(titles(&sorted), expected_titles);
}

#[test]
fn render_follows_each_entry_with_an_empty_line() {
    let entries = vec![entry("a", 2024, 1, 1), entry("b", 2024, 1, 2)];
    assert_eq!(render(&entries), "# a\n\n\n# b\n\n\n");
    assert_eq!(render(&Vec::new()), "");
}

#[test]
fn render_keeps_a_text_without_final_line_feed() {
    let entries = vec![Entry {
        title: String::from("t"),
        date: Date { year: 2024, month: 1, day: 1 },
        content: String::from("# t\nbody"),
    }];
    assert_eq!(render(&entries), "# t\nbody\n\n");
}

#[test]
fn two_notes_aggregate_newest_first() {
    let files = vec![
        file("01.15.2024 - A.md", "# 01.15.2024 - A\nHello\n"),
        file("02.01.2024 - B.md", "# 02.01.2024 - B\nWorld\n"),
    ];
    let result = aggregate(files);
    assert_eq!(result.document, "# 02.01.2024 - B\nWorld\n\n\n# 01.15.2024 - A\nHello\n\n\n");
    assert_eq!(result.count, 2);
}

#[test]
fn the_newer_entry_stands_before_the_older() {
    let files = vec![
        file("a.md", "# 03.01.2022 - early\n"),
        file("b.md", "# 03.01.2024 - late\n"),
        file("c.md", "# 03.01.2023 - middle\n"),
    ];
    let document = aggregate(files).document;
    let late = document.find("# 03.01.2024 - late").unwrap();
    let middle = document.find("# 03.01.2023 - middle").unwrap();
    let early = document.find("# 03.01.2022 - early").unwrap();
    assert!(late < middle && middle < early);
}

#[test]
fn an_ineligible_file_never_reaches_the_document() {
    let kept = "# 01.15.2024 - A\nHello\n";
    let with = aggregate(vec![
        file(".hidden.md", "# 01.01.2030 - hidden\n"),
        file("a.md", kept),
        file("_draft.md", "# 01.01.2031 - draft\n"),
        file("notes.txt", "# 01.01.2032 - text\n"),
    ]);
    let without = aggregate(vec![file("a.md", kept)]);
    assert_eq!(with.document, without.document);
    assert_eq!(with.count, 1);
    assert_eq!(with.document, "# 01.15.2024 - A\nHello\n\n\n");
}

#[test]
fn an_undated_file_adds_nothing_and_does_not_count() {
    let kept = "# 01.15.2024 - A\nHello\n";
    let with = aggregate(vec![
        file("empty.md", ""),
        file("plain.md", "just text\n"),
        file("a.md", kept),
        file("undated.md", "# A title - with separator\n"),
        file("bad.md", "# 31.12.2024 - day first\n"),
    ]);
    assert_eq!(with.document, "# 01.15.2024 - A\nHello\n\n\n");
    assert_eq!(with.count, 1);
}

#[test]
fn no_files_aggregate_to_an_empty_document() {
    let result = aggregate(Vec::new());
    assert_eq!(result.document, "");
    assert_eq!(result.count, 0);
}
