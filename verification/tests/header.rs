use devlog::date::parse_date;
use devlog::date::Date;
use devlog::header::format_header;
use devlog::header::is_header_line;
use devlog::header::parse_header;
use devlog::header::read_date;
use devlog::header::read_date_token;
use devlog::header::read_title;
use devlog::header::starts_with_marker;
use devlog::text::chars_of;

fn day(year: i32, month: u32, day: u32) -> Date {
    Date { year, month, day }
}

#[test]
fn parse_date_reads_month_day_year() {
    assert_eq!(parse_date("01.15.2024"), Some(day(2024, 1, 15)));
    assert_eq!(parse_date("12.31.1999"), Some(day(1999, 12, 31)));
    assert_eq!(parse_date("02.29.2024"), Some(day(2024, 2, 29)));
}

#[test]
fn parse_date_refuses_what_is_no_date() {
    assert_eq!(parse_date(""), None);
    assert_eq!(parse_date("hello"), None);
    assert_eq!(parse_date("13.01.2024"), None);
    assert_eq!(parse_date("02.30.2024"), None);
    assert_eq!(parse_date("02.29.2023"), None);
    assert_eq!(parse_date("2024.01.15"), None);
    assert_eq!(parse_date("01-15-2024"), None);
    assert_eq!(parse_date("01.15.2024 "), None);
    assert_eq!(parse_date("01.15"), None);
}

#[test]
fn dates_are_ordered_by_year_month_day() {
    assert!(day(2023, 12, 31).precedes(&day(2024, 1, 1)));
    assert!(day(2024, 1, 31).precedes(&day(2024, 2, 1)));
    assert!(day(2024, 2, 1).precedes(&day(2024, 2, 2)));
    assert!(!day(2024, 2, 2).precedes(&day(2024, 2, 2)));
    assert!(!day(2024, 2, 2).precedes(&day(2024, 2, 1)));
    assert!(!day(2024, 1, 1).precedes(&day(2023, 12, 31)));
    assert!(day(-1, 12, 31).precedes(&day(0, 1, 1)));
}

#[test]
fn marker_is_a_hash_and_a_space() {
    assert!(is_header_line("# title"));
    assert!(is_header_line("# "));
    assert!(is_header_line("# # twice"));
    assert!(!is_header_line("#title"));
    assert!(!is_header_line("## title"));
    assert!(!is_header_line(" # title"));
    assert!(!is_header_line("#"));
    assert!(!is_header_line(""));
    assert!(!is_header_line("body"));
    assert!(starts_with_marker(&chars_of("# x")));
    assert!(!starts_with_marker(&chars_of("x# ")));
}

#[test]
fn title_is_what_stands_behind_the_marker() {
    assert_eq!(read_title("# 01.15.2024 - A"), Some(String::from("01.15.2024 - A")));
    assert_eq!(read_title("# "), Some(String::new()));
    assert_eq!(read_title("# a # b"), Some(String::from("a # b")));
    assert_eq!(read_title("body"), None);
    assert_eq!(read_title(""), None);
}

#[test]
fn date_token_ends_at_the_first_separator() {
    assert_eq!(read_date_token("01.15.2024 - A"), Some(String::from("01.15.2024")));
    assert_eq!(read_date_token("a - b - c"), Some(String::from("a")));
    assert_eq!(read_date_token(" - b"), Some(String::new()));
    assert_eq!(read_date_token("a-b"), None);
    assert_eq!(read_date_token("a -b"), None);
    assert_eq!(read_date_token(""), None);
}

#[test]
fn read_date_needs_a_separator_and_a_date() {
    assert_eq!(read_date("01.15.2024 - A"), Some(day(2024, 1, 15)));
    assert_eq!(read_date("01.15.2024 - A - B"), Some(day(2024, 1, 15)));
    assert_eq!(read_date("01.15.2024"), None);
    assert_eq!(read_date("01.15.2024-A"), None);
    assert_eq!(read_date("soon - A"), None);
    assert_eq!(read_date("A - 01.15.2024"), None);
}

#[test]
fn parse_header_gives_title_and_date() {
    let header = parse_header("# 02.01.2024 - B").unwrap();
    assert_eq!(header.title, "02.01.2024 - B");
    assert_eq!(header.date, Some(day(2024, 2, 1)));
}

#[test]
fn parse_header_keeps_the_title_where_there_is_no_date() {
    let header = parse_header("# Notes on things").unwrap();
    assert_eq!(header.title, "Notes on things");
    assert_eq!(header.date, None);
    let header = parse_header("# 99.99.2024 - X").unwrap();
    assert_eq!(header.title, "99.99.2024 - X");
    assert_eq!(header.date, None);
}

#[test]
fn parse_header_refuses_a_line_without_marker() {
    assert!(parse_header("02.01.2024 - B").is_none());
    assert!(parse_header("").is_none());
    assert!(parse_header("#02.01.2024 - B").is_none());
}

#[test]
fn format_header_puts_the_marker_first() {
    assert_eq!(format_header("02.01.2024 - B"), "# 02.01.2024 - B");
    assert_eq!(format_header(""), "# ");
}

#[test]
fn a_formatted_header_parses_to_its_title() {
    for title in ["02.01.2024 - B", "", "# nested", "plain", "a/b - c"] {
        let line = format_header(title);
        assert!(is_header_line(&line));
        let header = parse_header(&line).unwrap();
        assert_eq!(header.title, title);
        assert_eq!(header.date, read_date(title));
    }
}
